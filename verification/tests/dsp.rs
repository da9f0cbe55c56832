//! The building blocks: smoother, oscillator, panning, wavefolder, filter.

use std::f32::consts::PI;

use sine_one::dsp::oscillator::{apply_detune, SineOscillator, CENTS_PER_OCTAVE};
use sine_one::dsp::pan::{apply_constant_power_pan, QUARTER_PI};
use sine_one::dsp::smoother::LinearSmoother;
use sine_one::dsp::svf::{
    compute_lpg_cutoff, resonance_to_q, SvfFilter, LOG_MIN_CUTOFF, MAX_CUTOFF_HZ, MIN_CUTOFF_HZ,
    NYQUIST_LIMIT_RATIO, Q_MAX, Q_MIN,
};
use sine_one::dsp::wavefold::{wavefold, MAX_DRIVE_IN_PI};
use sine_one::scalar::{clamp, Scalar, ONE, TAU, TWO, ZERO};

/// Single-precision numbers.
#[derive(Clone, Copy, Debug, PartialEq)]
struct F(f32);

impl Scalar for F {
    fn from_bits(bits: u32) -> Self {
        F(f32::from_bits(bits))
    }
    fn from_usize(count: usize) -> Self {
        F(count as f32)
    }
    fn to_u32(self) -> u32 {
        self.0 as u32
    }
    fn plus(self, other: Self) -> Self {
        F(self.0 + other.0)
    }
    fn minus(self, other: Self) -> Self {
        F(self.0 - other.0)
    }
    fn times(self, other: Self) -> Self {
        F(self.0 * other.0)
    }
    fn over(self, other: Self) -> Self {
        F(self.0 / other.0)
    }
    fn remainder(self, other: Self) -> Self {
        F(self.0 % other.0)
    }
    fn negated(self) -> Self {
        F(-self.0)
    }
    fn magnitude(self) -> Self {
        F(self.0.abs())
    }
    fn lesser(self, other: Self) -> Self {
        F(self.0.min(other.0))
    }
    fn greater(self, other: Self) -> Self {
        F(self.0.max(other.0))
    }
    fn square_root(self) -> Self {
        F(self.0.sqrt())
    }
    fn sine(self) -> Self {
        F(self.0.sin())
    }
    fn cosine(self) -> Self {
        F(self.0.cos())
    }
    fn tangent(self) -> Self {
        F(self.0.tan())
    }
    fn exponential(self) -> Self {
        F(self.0.exp())
    }
    fn logarithm(self) -> Self {
        F(self.0.ln())
    }
    fn power(self, exponent: Self) -> Self {
        F(self.0.powf(exponent.0))
    }
    fn is_below(self, other: Self) -> bool {
        self.0 < other.0
    }
    fn is_above(self, other: Self) -> bool {
        self.0 > other.0
    }
    fn is_at_most(self, other: Self) -> bool {
        self.0 <= other.0
    }
    fn is_at_least(self, other: Self) -> bool {
        self.0 >= other.0
    }
    fn differs_from(self, other: Self) -> bool {
        self.0 != other.0
    }
}

/// The number of a constant.
fn number(bits: u32) -> f32 {
    f32::from_bits(bits)
}

/// `steps` numbers from `lo` up to `hi`.
fn spread(lo: f32, hi: f32, steps: usize) -> Vec<f32> {
    (0..=steps)
        .map(|i| lo + (hi - lo) * (i as f32 / steps as f32))
        .collect()
}

/// Constant-power panning of a number.
fn pan_of(sample: f32, pan: f32) -> (f32, f32) {
    let (left, right) = apply_constant_power_pan(F(sample), F(pan));
    (left.0, right.0)
}

/// The wavefolder on numbers.
fn fold_of(input: f32, fold: f32) -> f32 {
    wavefold(F(input), F(fold)).0
}

#[test]
fn initial_value_is_zero() {
    let mut s = LinearSmoother::<F>::default();
    assert_eq!(s.next_sample().0, 0.0);
}

#[test]
fn set_immediate_jumps_to_target() {
    let mut s = LinearSmoother::<F>::default();
    s.set_immediate(F(0.8));
    assert_eq!(s.next_sample().0, 0.8);
    assert_eq!(s.next_sample().0, 0.8);
}

#[test]
fn set_target_ramps_linearly() {
    let mut s = LinearSmoother::<F>::default();
    s.set_immediate(F(0.0));
    s.set_target(F(1.0), 4);
    let samples: Vec<f32> = (0..4).map(|_| s.next_sample().0).collect();
    assert_eq!(samples, vec![0.25, 0.5, 0.75, 1.0]);
}

#[test]
fn ramp_reaches_target_exactly() {
    let mut s = LinearSmoother::<F>::default();
    s.set_immediate(F(0.0));
    // Use a count that would cause float drift with naive addition.
    s.set_target(F(1.0), 3);
    for _ in 0..3 {
        s.next_sample();
    }
    // Final value should be exactly 1.0, not 0.9999... or 1.0001...
    assert_eq!(s.next_sample().0, 1.0);
}

#[test]
fn ramp_stays_at_target() {
    let mut s = LinearSmoother::<F>::default();
    s.set_immediate(F(0.0));
    s.set_target(F(0.5), 2);
    s.next_sample(); // 0.25
    s.next_sample(); // 0.5
                     // Should stay at 0.5.
    for _ in 0..10 {
        assert_eq!(s.next_sample().0, 0.5);
    }
}

#[test]
fn retarget_mid_ramp() {
    let mut s = LinearSmoother::<F>::default();
    s.set_immediate(F(0.0));
    s.set_target(F(1.0), 4);
    s.next_sample(); // 0.25
    s.next_sample(); // 0.5

    // Retarget from 0.5 toward 0.0 over 4 samples.
    s.set_target(F(0.0), 4);
    let samples: Vec<f32> = (0..4).map(|_| s.next_sample().0).collect();
    assert_eq!(samples, vec![0.375, 0.25, 0.125, 0.0]);
}

#[test]
fn zero_ramp_samples_jumps_immediately() {
    let mut s = LinearSmoother::<F>::default();
    s.set_immediate(F(0.5));
    s.set_target(F(1.0), 0);
    assert_eq!(s.next_sample().0, 1.0);
}

#[test]
fn sine_output_in_range() {
    let mut osc = SineOscillator::<F>::default();
    // A4 at 44100 Hz — arbitrary choice for exercising the oscillator.
    osc.set_frequency(F(440.0), F(44100.0));
    for _ in 0..1000 {
        let sample = osc.next_sample().0;
        assert!(
            (-1.0..=1.0).contains(&sample),
            "sample {sample} out of [-1, 1]"
        );
    }
}

#[test]
fn sine_phase_is_periodic() {
    let mut osc = SineOscillator::<F>::default();
    // Use a frequency that divides the sample rate evenly so one period
    // is an exact integer number of samples (44100 / 441 = 100).
    let sample_rate = 44100.0;
    let frequency = 441.0;
    osc.set_frequency(F(frequency), F(sample_rate));

    let first_sample = osc.next_sample().0;

    // Advance exactly one period: 100 samples.
    let period_samples = (sample_rate / frequency) as usize;
    for _ in 1..period_samples {
        osc.next_sample();
    }
    let one_period_later = osc.next_sample().0;

    assert!(
        (first_sample - one_period_later).abs() < 1e-4,
        "expected periodicity: first={first_sample}, after one period={one_period_later}"
    );
}

#[test]
fn reset_clears_phase() {
    let mut osc = SineOscillator::<F>::default();
    osc.set_frequency(F(440.0), F(44100.0));

    // Advance past zero phase.
    for _ in 0..50 {
        osc.next_sample();
    }

    osc.reset();

    // A fresh oscillator at the same frequency should produce the same output.
    let mut fresh = SineOscillator::<F>::default();
    fresh.set_frequency(F(440.0), F(44100.0));

    assert_eq!(osc.next_sample().0, fresh.next_sample().0);
}

#[test]
fn fine_tune_zero_cents_no_change() {
    let base = 440.0;
    let result = apply_detune(F(base), F(0.0)).0;
    assert!(
        (result - base).abs() < 1e-6,
        "0 cents should leave frequency unchanged: got {result}"
    );
}

#[test]
fn fine_tune_1200_cents_octave_up() {
    let base = 440.0;
    // 1200 cents = one octave = frequency doubles.
    let result = apply_detune(F(base), F(1200.0)).0;
    assert!(
        (result - 880.0).abs() < 1e-3,
        "1200 cents should double frequency: expected 880.0, got {result}"
    );
}

#[test]
fn center_pan_equal_channels() {
    let (left, right) = pan_of(1.0, 0.0);
    // At center, both channels should equal 1/sqrt(2) ≈ 0.7071.
    let expected = std::f32::consts::FRAC_1_SQRT_2;
    assert!(
        (left - expected).abs() < 1e-6,
        "left {left} should be ~{expected}"
    );
    assert!(
        (right - expected).abs() < 1e-6,
        "right {right} should be ~{expected}"
    );
}

#[test]
fn hard_left_silences_right() {
    let (left, right) = pan_of(1.0, -1.0);
    assert!(
        (left - 1.0).abs() < 1e-6,
        "hard-left should produce left=1.0, got {left}"
    );
    assert!(
        right.abs() < 1e-6,
        "hard-left should silence right, got {right}"
    );
}

#[test]
fn hard_right_silences_left() {
    let (left, right) = pan_of(1.0, 1.0);
    assert!(
        left.abs() < 1e-6,
        "hard-right should silence left, got {left}"
    );
    assert!(
        (right - 1.0).abs() < 1e-6,
        "hard-right should produce right=1.0, got {right}"
    );
}

#[test]
fn constant_power_at_center() {
    let sample = 0.8;
    let (left, right) = pan_of(sample, 0.0);
    // Constant power: left² + right² should equal sample².
    let power = left * left + right * right;
    let expected = sample * sample;
    assert!(
        (power - expected).abs() < 1e-6,
        "power {power} should equal {expected}"
    );
}

#[test]
fn pan_is_monotonic() {
    let sample = 1.0;
    let steps: Vec<f32> = (-10..=10).map(|i| i as f32 / 10.0).collect();

    for window in steps.windows(2) {
        let (left_a, right_a) = pan_of(sample, window[0]);
        let (left_b, right_b) = pan_of(sample, window[1]);
        // As pan increases, left decreases and right increases.
        assert!(
            left_b <= left_a + 1e-6,
            "left should decrease: pan {} -> {}, left {} -> {}",
            window[0],
            window[1],
            left_a,
            left_b
        );
        assert!(
            right_b >= right_a - 1e-6,
            "right should increase: pan {} -> {}, right {} -> {}",
            window[0],
            window[1],
            right_a,
            right_b
        );
    }
}

#[test]
fn zero_fold_is_identity() {
    // fold_amount = 0 must return the input unchanged.
    for &input in &[0.0, 0.5, -0.5, 1.0, -1.0, 0.123, -0.999] {
        let result = fold_of(input, 0.0);
        assert_eq!(
            result, input,
            "fold=0 should be identity: wavefold({input}, 0.0) = {result}"
        );
    }
}

#[test]
fn output_bounded() {
    // Output must stay in [-1, 1] for all valid inputs and fold amounts.
    let inputs = [0.0, 0.1, 0.5, 0.9, 1.0, -0.1, -0.5, -0.9, -1.0];
    let folds = [0.0, 0.1, 0.25, 0.5, 0.75, 1.0];
    for &input in &inputs {
        for &fold in &folds {
            let result = fold_of(input, fold);
            assert!(
                (-1.0..=1.0).contains(&result),
                "out of bounds: wavefold({input}, {fold}) = {result}"
            );
        }
    }
}

#[test]
fn max_fold_changes_signal() {
    // At full fold, the output must differ from the input.
    let input = 0.5;
    let result = fold_of(input, 1.0);
    assert_ne!(
        result, input,
        "full fold should change the signal: wavefold({input}, 1.0) = {result}"
    );
}

#[test]
fn fold_is_odd_symmetric() {
    // sin(-x) = -sin(x), so wavefold(-x, a) should equal -wavefold(x, a).
    let inputs = [0.1, 0.5, 0.9, 1.0];
    let folds = [0.25, 0.5, 0.75, 1.0];
    for &input in &inputs {
        for &fold in &folds {
            let pos = fold_of(input, fold);
            let neg = fold_of(-input, fold);
            assert!(
                (pos + neg).abs() < 1e-6,
                "odd symmetry violated: wavefold({input}, {fold}) = {pos}, wavefold({}, {fold}) = {neg}",
                -input
            );
        }
    }
}

#[test]
fn negative_fold_treated_as_zero() {
    // Edge case: fold_amount < 0 should bypass, same as fold = 0.
    let input = 0.7;
    let result = fold_of(input, -0.5);
    assert_eq!(
        result, input,
        "negative fold should bypass: wavefold({input}, -0.5) = {result}"
    );
}

const SR: f32 = 44100.0;

/// Generate a sine at `freq` Hz, run it through the SVF, and return
/// `(input_energy, output_energy)` measured over `measure` samples
/// after a `warmup`-sample settling period.
fn measure_energy(
    svf: &mut SvfFilter<F>,
    freq: f32,
    cutoff: f32,
    q: f32,
    warmup: usize,
    measure: usize,
) -> (f32, f32) {
    for i in 0..warmup {
        let input = (i as f32 * freq / SR * 2.0 * PI).sin();
        svf.process(F(input), F(cutoff), F(q), F(SR));
    }
    let mut input_energy = 0.0_f32;
    let mut output_energy = 0.0_f32;
    for i in 0..measure {
        let input = ((i + warmup) as f32 * freq / SR * 2.0 * PI).sin();
        let output = svf.process(F(input), F(cutoff), F(q), F(SR)).0;
        input_energy += input * input;
        output_energy += output * output;
    }
    (input_energy, output_energy)
}

// --- SvfFilter tests ---

#[test]
fn default_state_is_zero() {
    let svf = SvfFilter::<F>::default();
    assert_eq!(svf.ic1eq.0, 0.0);
    assert_eq!(svf.ic2eq.0, 0.0);
}

#[test]
fn passthrough_at_max_cutoff() {
    // A 100 Hz sine through a 20 kHz lowpass should pass nearly unchanged.
    let mut svf = SvfFilter::<F>::default();
    let cutoff = number(MAX_CUTOFF_HZ);
    let (input_e, output_e) = measure_energy(&mut svf, 100.0, cutoff, number(Q_MIN), 512, 1024);
    let ratio = output_e / input_e;
    assert!(
        ratio > 0.99,
        "100 Hz through 20 kHz cutoff should pass through, energy ratio = {ratio}"
    );
}

#[test]
fn attenuates_above_cutoff() {
    // A 2 kHz sine through a 200 Hz lowpass should be heavily attenuated.
    let mut svf = SvfFilter::<F>::default();
    let (input_e, output_e) = measure_energy(&mut svf, 2000.0, 200.0, number(Q_MIN), 512, 1024);
    let ratio = output_e / input_e;
    assert!(
        ratio < 0.01,
        "2 kHz through 200 Hz cutoff should be attenuated, energy ratio = {ratio}"
    );
}

#[test]
fn reset_clears_state() {
    let mut svf = SvfFilter::<F>::default();

    // Process some samples to dirty the state.
    for i in 0..100 {
        let input = (i as f32 * 0.1).sin();
        svf.process(F(input), F(1000.0), F(number(Q_MIN)), F(SR));
    }
    assert!(
        svf.ic1eq.0 != 0.0 || svf.ic2eq.0 != 0.0,
        "state should be non-zero after processing"
    );

    svf.reset();
    assert_eq!(svf.ic1eq.0, 0.0, "ic1eq should be zero after reset");
    assert_eq!(svf.ic2eq.0, 0.0, "ic2eq should be zero after reset");
}

#[test]
fn resonance_boosts_near_cutoff() {
    // At high Q, a sine at the cutoff frequency should have more energy than at Q_MIN.
    let mut svf_flat = SvfFilter::<F>::default();
    let (_, energy_flat) = measure_energy(&mut svf_flat, 1000.0, 1000.0, number(Q_MIN), 512, 2048);

    let mut svf_res = SvfFilter::<F>::default();
    let (_, energy_res) = measure_energy(&mut svf_res, 1000.0, 1000.0, 15.0, 512, 2048);

    assert!(
        energy_res > energy_flat * 2.0,
        "high Q should boost energy at cutoff: flat={energy_flat}, resonant={energy_res}"
    );
}

// --- compute_lpg_cutoff tests ---

#[test]
fn depth_zero_returns_max_cutoff() {
    let max = 10000.0;
    for env in [0.0, 0.25, 0.5, 0.75, 1.0] {
        let fc = compute_lpg_cutoff(F(env), F(0.0), F(max)).0;
        assert!(
            (fc - max).abs() < 0.01,
            "depth=0 should return max_cutoff for env={env}, got {fc}"
        );
    }
}

#[test]
fn depth_one_env_zero_returns_min() {
    let fc = compute_lpg_cutoff(F(0.0), F(1.0), F(20000.0)).0;
    assert!(
        (fc - number(MIN_CUTOFF_HZ)).abs() < 0.01,
        "depth=1, env=0 should return MIN_CUTOFF_HZ, got {fc}"
    );
}

#[test]
fn depth_one_env_one_returns_max() {
    let max = 20000.0;
    let fc = compute_lpg_cutoff(F(1.0), F(1.0), F(max)).0;
    assert!(
        (fc - max).abs() < 0.1,
        "depth=1, env=1 should return max_cutoff, got {fc}"
    );
}

#[test]
fn midpoint_is_geometric_mean() {
    // At env=0.5, depth=1, cutoff should be the geometric mean of min and max.
    let max = 20000.0;
    let fc = compute_lpg_cutoff(F(0.5), F(1.0), F(max)).0;
    let geometric_mean = (number(MIN_CUTOFF_HZ) * max).sqrt();
    assert!(
        (fc - geometric_mean).abs() < 1.0,
        "env=0.5 should give geometric mean {geometric_mean}, got {fc}"
    );
}

// --- resonance_to_q tests ---

#[test]
fn zero_resonance_is_butterworth() {
    let q = resonance_to_q(F(0.0)).0;
    assert!(
        (q - number(Q_MIN)).abs() < 1e-6,
        "resonance=0 should give Q_MIN, got {q}"
    );
}

#[test]
fn one_resonance_is_max() {
    let q = resonance_to_q(F(1.0)).0;
    assert!(
        (q - number(Q_MAX)).abs() < 0.01,
        "resonance=1 should give Q_MAX, got {q}"
    );
}

#[test]
fn sine_is_always_finite() {
    for freq in spread(20.0, 19999.0, 24) {
        for sr in spread(22050.0, 192000.0, 12) {
            let mut osc = SineOscillator::<F>::default();
            osc.set_frequency(F(freq), F(sr));
            for _ in 0..512 {
                assert!(osc.next_sample().0.is_finite());
            }
        }
    }
}

#[test]
fn constant_power_across_range() {
    for pan in spread(-1.0, 1.0, 50) {
        for sample in spread(-1.0, 1.0, 50) {
            let (left, right) = pan_of(sample, pan);
            assert!(
                left.is_finite(),
                "left is not finite for pan={pan}, sample={sample}"
            );
            assert!(
                right.is_finite(),
                "right is not finite for pan={pan}, sample={sample}"
            );
            let power = left * left + right * right;
            let expected = sample * sample;
            assert!(
                (power - expected).abs() < 1e-4,
                "power {power} != expected {expected} for pan={pan}, sample={sample}"
            );
        }
    }
}

#[test]
fn wavefold_always_bounded() {
    for input in spread(-1.0, 1.0, 80) {
        for fold in spread(0.0, 1.0, 80) {
            let result = fold_of(input, fold);
            assert!(
                result.is_finite(),
                "not finite: wavefold({input}, {fold}) = {result}"
            );
            assert!(
                (-1.0..=1.0).contains(&result),
                "out of bounds: wavefold({input}, {fold}) = {result}"
            );
        }
    }
}

#[test]
fn zero_fold_always_identity() {
    for input in spread(-1.0, 1.0, 500) {
        let result = fold_of(input, 0.0);
        assert_eq!(result, input, "fold=0 should be identity");
    }
}

#[test]
fn output_is_finite() {
    for cutoff in spread(20.0, 19999.0, 20) {
        for q in spread(0.707, 19.99, 10) {
            for input in spread(-1.0, 1.0, 8) {
                let mut svf = SvfFilter::<F>::default();
                for _ in 0..64 {
                    let out = svf.process(F(input), F(cutoff), F(q), F(44100.0)).0;
                    assert!(out.is_finite(), "output must be finite, got {out}");
                }
            }
        }
    }
}

#[test]
fn cutoff_increases_with_envelope() {
    for env_low in spread(0.0, 0.489, 8) {
        for env_high in spread(0.51, 0.999, 8) {
            for depth in spread(0.01, 0.999, 8) {
                for max_cutoff in spread(100.0, 19999.0, 8) {
                    let fc_low = compute_lpg_cutoff(F(env_low), F(depth), F(max_cutoff)).0;
                    let fc_high = compute_lpg_cutoff(F(env_high), F(depth), F(max_cutoff)).0;
                    assert!(
                        fc_high > fc_low,
                        "higher env should give higher cutoff: env_low={env_low}→{fc_low}, env_high={env_high}→{fc_high}"
                    );
                }
            }
        }
    }
}

#[test]
fn resonance_is_monotonic() {
    for res_low in spread(0.0, 0.489, 30) {
        for res_high in spread(0.51, 0.999, 30) {
            let q_low = resonance_to_q(F(res_low)).0;
            let q_high = resonance_to_q(F(res_high)).0;
            assert!(
                q_high > q_low,
                "higher resonance should give higher Q: {res_low}→{q_low}, {res_high}→{q_high}"
            );
        }
    }
}

#[test]
fn dsp_constants_encode_their_numbers() {
    assert_eq!(number(ZERO), 0.0);
    assert_eq!(number(ONE), 1.0);
    assert_eq!(number(TWO), 2.0);
    assert_eq!(number(sine_one::scalar::PI), PI);
    assert_eq!(number(TAU), std::f32::consts::TAU);
    assert_eq!(number(CENTS_PER_OCTAVE), 1200.0);
    assert_eq!(number(QUARTER_PI), std::f32::consts::FRAC_PI_4);
    assert_eq!(number(MAX_DRIVE_IN_PI), 4.0);
    assert_eq!(number(MIN_CUTOFF_HZ), 20.0);
    assert_eq!(number(MAX_CUTOFF_HZ), 20_000.0);
    assert_eq!(number(LOG_MIN_CUTOFF), 2.995_732_3);
    assert_eq!(number(Q_MIN), std::f32::consts::FRAC_1_SQRT_2);
    assert_eq!(number(Q_MAX), 20.0);
    assert_eq!(number(NYQUIST_LIMIT_RATIO), 0.498);
}

#[test]
fn clamp_holds_to_the_range() {
    assert_eq!(clamp(F(-3.0), F(0.0), F(1.0)), F(0.0));
    assert_eq!(clamp(F(0.25), F(0.0), F(1.0)), F(0.25));
    assert_eq!(clamp(F(3.0), F(0.0), F(1.0)), F(1.0));
    assert!(clamp(F(f32::NAN), F(0.0), F(1.0)).0.is_nan());
}

#[test]
fn smoother_reset_is_zero_and_at_rest() {
    let mut s = LinearSmoother::<F>::default();
    s.set_target(F(1.0), 4);
    s.next_sample();
    s.reset();
    for _ in 0..6 {
        assert_eq!(s.next_sample(), F(0.0));
    }
}

#[test]
fn smoother_steps_evenly_until_it_snaps() {
    let mut s = LinearSmoother::<F>::default();
    s.set_target(F(1.0), 3);
    let step = 1.0_f32 / 3.0;
    assert_eq!(s.increment, F(step));
    assert_eq!(s.next_sample(), F(step));
    assert_eq!(s.next_sample(), F(step + step));
    assert_eq!(s.next_sample(), F(1.0));
}

#[test]
fn oscillator_starts_at_its_phase_and_wraps() {
    let mut osc = SineOscillator::<F>::default();
    osc.set_frequency(F(1.0), F(4.0));
    osc.set_phase(F(0.75));
    assert_eq!(osc.next_sample().0, (0.75 * std::f32::consts::TAU).sin());
    assert_eq!(osc.phase, F(0.0));
    assert_eq!(osc.next_sample().0, 0.0);
    assert_eq!(osc.phase, F(0.25));
}

#[test]
fn oscillator_phase_stays_in_its_cycle() {
    for freq in [0.0, 0.1, 440.0, 22050.0, 44099.0] {
        let mut osc = SineOscillator::<F>::default();
        osc.set_frequency(F(freq), F(44100.0));
        osc.set_phase(F(0.99999994));
        for _ in 0..5000 {
            let sample = osc.next_sample().0;
            assert!((-1.0..=1.0).contains(&sample));
            assert!((0.0..1.0).contains(&osc.phase.0));
        }
    }
}

#[test]
fn oscillator_reset_keeps_the_tuning() {
    let mut osc = SineOscillator::<F>::default();
    osc.set_frequency(F(1.0), F(4.0));
    osc.next_sample();
    osc.reset();
    assert_eq!(osc.phase, F(0.0));
    assert_eq!(osc.phase_increment, F(0.25));
}

#[test]
fn detune_is_exact_at_a_semitone() {
    let result = apply_detune(F(440.0), F(100.0)).0;
    assert_eq!(result, 440.0 * 2.0_f32.powf(100.0 / 1200.0));
}

#[test]
fn pan_is_exact_off_center() {
    let theta = 1.5 * std::f32::consts::FRAC_PI_4;
    assert_eq!(pan_of(0.5, 0.5), (0.5 * theta.cos(), 0.5 * theta.sin()));
}

#[test]
fn wavefold_is_exact_at_half() {
    let drive = 1.0 + 0.5 * (4.0 * PI - 1.0);
    assert_eq!(fold_of(0.3, 0.5), (0.3 * drive).sin());
}

#[test]
fn wavefold_above_one_is_full() {
    assert_eq!(fold_of(0.3, 7.5), fold_of(0.3, 1.0));
}

#[test]
fn wavefold_that_is_not_a_number_is_full() {
    assert_eq!(fold_of(0.3, f32::NAN), fold_of(0.3, 1.0));
}

#[test]
fn filter_sample_is_exact() {
    let mut svf = SvfFilter {
        ic1eq: F(0.25),
        ic2eq: F(-0.5),
    };
    let g = (PI * 1000.0 / SR).tan();
    let k = 1.0 / 2.0;
    let a1 = 1.0 / (1.0 + g * (g + k));
    let a2 = g * a1;
    let a3 = g * a2;
    let v3 = 0.75 + 0.5;
    let v1 = a1 * 0.25 + a2 * v3;
    let v2 = -0.5 + a2 * 0.25 + a3 * v3;
    assert_eq!(svf.process(F(0.75), F(1000.0), F(2.0), F(SR)), F(v2));
    assert_eq!(svf.ic1eq, F(2.0 * v1 - 0.25));
    assert_eq!(svf.ic2eq, F(2.0 * v2 + 0.5));
}

#[test]
fn filter_cutoff_is_held_to_its_range() {
    // The upper end is the lesser of 0.498 of the sample rate and 20 kHz.
    let cases = [
        (5.0, 20.0, SR),
        (-7.0, 20.0, SR),
        (1e6, 20_000.0, SR),
        (21_000.0, 20_000.0, SR),
        (30_000.0, 20_000.0, 96_000.0),
        (5.0, 20.0, 96_000.0),
        (18_000.0, 22_050.0 * 0.498, 22_050.0),
    ];
    for (asked, held, rate) in cases {
        let mut svf = SvfFilter::<F>::default();
        let mut other = SvfFilter::<F>::default();
        for _ in 0..8 {
            assert_eq!(
                svf.process(F(1.0), F(asked), F(number(Q_MIN)), F(rate)),
                other.process(F(1.0), F(held), F(number(Q_MIN)), F(rate))
            );
        }
        assert_eq!((svf.ic1eq, svf.ic2eq), (other.ic1eq, other.ic2eq));
    }
}

#[test]
fn filter_cutoff_inside_its_range_is_used_as_given() {
    let mut svf = SvfFilter::<F>::default();
    let mut other = SvfFilter::<F>::default();
    let low = svf.process(F(1.0), F(19_000.0), F(1.0), F(96_000.0));
    let high = other.process(F(1.0), F(20_000.0), F(1.0), F(96_000.0));
    assert!(low.0 < high.0);
}

#[test]
fn zero_depth_keeps_the_cutoff_for_every_level() {
    let open = compute_lpg_cutoff(F(0.0), F(0.0), F(8000.0));
    for env in spread(0.0, 1.0, 50) {
        assert_eq!(compute_lpg_cutoff(F(env), F(0.0), F(8000.0)), open);
    }
}

#[test]
fn cutoff_never_falls_with_the_envelope() {
    for depth in spread(0.0, 1.0, 10) {
        let mut last = 0.0;
        for env in spread(0.0, 1.0, 400) {
            let cutoff = compute_lpg_cutoff(F(env), F(depth), F(12_000.0)).0;
            assert!(cutoff >= last, "depth {depth}, level {env}");
            last = cutoff;
        }
    }
}

#[test]
fn quality_never_falls_with_the_resonance() {
    let mut last = 0.0;
    for res in spread(0.0, 1.0, 1000) {
        let q = resonance_to_q(F(res)).0;
        assert!(q >= last, "resonance {res}");
        last = q;
    }
}

#[test]
fn wavefold_is_exactly_odd() {
    for input in spread(-1.0, 1.0, 40) {
        for fold in [-0.5, 0.0, 0.3, 1.0, 2.0] {
            assert_eq!(fold_of(-input, fold), -fold_of(input, fold));
        }
    }
}

#[test]
fn smoothers_at_rest_forget_their_last_ramp() {
    let mut ramped = LinearSmoother::<F>::default();
    ramped.set_target(F(0.5), 4);
    for _ in 0..4 {
        ramped.next_sample();
    }
    let mut placed = LinearSmoother::<F>::default();
    placed.set_immediate(F(0.5));
    ramped.set_target(F(1.0), 3);
    placed.set_target(F(1.0), 3);
    for _ in 0..5 {
        assert_eq!(ramped.next_sample(), placed.next_sample());
    }
}

#[test]
fn gate_cutoff_is_exact_at_half_depth() {
    let log_max = 8000.0_f32.ln();
    let log_modulated = 2.995_732_3 + 0.25 * (log_max - 2.995_732_3);
    let log_fc = (1.0 - 0.5) * log_max + 0.5 * log_modulated;
    assert_eq!(
        compute_lpg_cutoff(F(0.25), F(0.5), F(8000.0)).0,
        log_fc.exp()
    );
}

#[test]
fn quality_is_exact_at_half_resonance() {
    let q_min = std::f32::consts::FRAC_1_SQRT_2;
    assert_eq!(resonance_to_q(F(0.5)).0, q_min * (20.0 / q_min).powf(0.5));
}

#[test]
fn detunings_add_up() {
    for (a, b) in [(100.0, 200.0), (-50.0, 30.0), (400.0, 700.0), (0.0, -100.0)] {
        let twice = apply_detune(apply_detune(F(440.0), F(a)), F(b)).0;
        let once = apply_detune(F(440.0), F(a + b)).0;
        assert!((twice / once - 1.0).abs() < 1e-6, "{a} and {b}: {twice}, {once}");
    }
}

#[test]
fn opposite_detunings_cancel() {
    for cents in spread(-1200.0, 1200.0, 48) {
        let back = apply_detune(apply_detune(F(261.63), F(cents)), F(-cents)).0;
        assert!((back / 261.63 - 1.0).abs() < 1e-6, "{cents}: {back}");
    }
}

#[test]
fn whole_octaves_are_exact() {
    assert_eq!(apply_detune(F(440.0), F(0.0)), F(440.0));
    assert_eq!(apply_detune(F(440.0), F(1200.0)), F(880.0));
}

#[test]
fn gate_cutoff_lies_between_its_ends() {
    for open in [20.0, 100.0, 1000.0, 20_000.0] {
        for depth in spread(0.0, 1.0, 20) {
            for env in spread(0.0, 1.0, 20) {
                let cutoff = compute_lpg_cutoff(F(env), F(depth), F(open)).0;
                assert!(cutoff >= 20.0 * (1.0 - 1e-5), "{env}, {depth}, {open}: {cutoff}");
                assert!(cutoff <= open * (1.0 + 1e-5), "{env}, {depth}, {open}: {cutoff}");
            }
        }
    }
}

#[test]
fn ramp_stays_on_its_line() {
    let mut smoother = LinearSmoother::<F>::default();
    smoother.set_immediate(F(1.0));
    smoother.set_target(F(0.5), 220);
    for i in 1..=220 {
        let line = 1.0 - 0.5 * i as f32 / 220.0;
        let out = smoother.next_sample().0;
        assert!((out - line).abs() < 1e-5, "sample {i}: {out}, {line}");
    }
}
