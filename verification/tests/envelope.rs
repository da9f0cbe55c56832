//! The envelope: curves, phases, bounds.

use sine_one::dsp::envelope::{
    ArEnvelope, EnvState, IDLE_THRESHOLD, MS_PER_SECOND, NUM_TC,
};
use sine_one::scalar::Scalar;

/// Single-precision numbers.
#[derive(Clone, Copy, Debug, PartialEq)]
struct F(f32);

impl Scalar for F {
    fn from_bits(bits: u32) -> Self {
        F(f32::from_bits(bits))
    }
    fn from_usize(count: usize) -> Self {
        F(count as f32)
    }
    fn to_u32(self) -> u32 {
        self.0 as u32
    }
    fn plus(self, other: Self) -> Self {
        F(self.0 + other.0)
    }
    fn minus(self, other: Self) -> Self {
        F(self.0 - other.0)
    }
    fn times(self, other: Self) -> Self {
        F(self.0 * other.0)
    }
    fn over(self, other: Self) -> Self {
        F(self.0 / other.0)
    }
    fn remainder(self, other: Self) -> Self {
        F(self.0 % other.0)
    }
    fn negated(self) -> Self {
        F(-self.0)
    }
    fn magnitude(self) -> Self {
        F(self.0.abs())
    }
    fn lesser(self, other: Self) -> Self {
        F(self.0.min(other.0))
    }
    fn greater(self, other: Self) -> Self {
        F(self.0.max(other.0))
    }
    fn square_root(self) -> Self {
        F(self.0.sqrt())
    }
    fn sine(self) -> Self {
        F(self.0.sin())
    }
    fn cosine(self) -> Self {
        F(self.0.cos())
    }
    fn tangent(self) -> Self {
        F(self.0.tan())
    }
    fn exponential(self) -> Self {
        F(self.0.exp())
    }
    fn logarithm(self) -> Self {
        F(self.0.ln())
    }
    fn power(self, exponent: Self) -> Self {
        F(self.0.powf(exponent.0))
    }
    fn is_below(self, other: Self) -> bool {
        self.0 < other.0
    }
    fn is_above(self, other: Self) -> bool {
        self.0 > other.0
    }
    fn is_at_most(self, other: Self) -> bool {
        self.0 <= other.0
    }
    fn is_at_least(self, other: Self) -> bool {
        self.0 >= other.0
    }
    fn differs_from(self, other: Self) -> bool {
        self.0 != other.0
    }
}

/// The number of time constants in a duration.
fn num_tc() -> f32 {
    f32::from_bits(NUM_TC)
}


/// Default sample rate used by all test helpers.
const TEST_SAMPLE_RATE: f32 = 44100.0;

/// Convert a duration in milliseconds to a whole number of samples.
fn ms_to_samples(ms: f32) -> usize {
    (ms * TEST_SAMPLE_RATE / 1000.0) as usize
}

/// Helper: create an envelope with given attack/release in ms at the test sample rate.
fn make_envelope(attack_ms: f32, release_ms: f32) -> ArEnvelope<F> {
    let mut env = ArEnvelope::<F>::default();
    env.set_attack(F(attack_ms), F(TEST_SAMPLE_RATE));
    env.set_release(F(release_ms), F(TEST_SAMPLE_RATE));
    env
}

#[test]
fn idle_outputs_zero() {
    let mut env = ArEnvelope::<F>::default();
    for _ in 0..100 {
        assert_eq!(env.next_sample().0, 0.0);
    }
}

#[test]
fn attack_ramps_up() {
    let mut env = make_envelope(10.0, 100.0);
    env.note_on();

    let mut prev = 0.0_f32;
    // Attack at 10ms / 44100 Hz ≈ 441 samples. Check first 400 are monotonically increasing.
    for i in 0..400 {
        let sample = env.next_sample().0;
        assert!(
            sample >= prev,
            "sample {i}: {sample} should be >= previous {prev}"
        );
        prev = sample;
    }
    // Should have increased above zero.
    assert!(prev > 0.0, "attack should produce nonzero output");
}

#[test]
fn attack_reaches_one() {
    let mut env = make_envelope(10.0, 100.0);
    env.note_on();

    // 10ms at 44100 Hz = 441 samples. Run a few extra to be safe.
    let attack_samples = ms_to_samples(10.0);
    for _ in 0..attack_samples + 10 {
        env.next_sample();
    }

    let sample = env.next_sample().0;
    assert!(
        (sample - 1.0).abs() < 1e-6,
        "level should be 1.0 after attack completes, got {sample}"
    );
}

#[test]
fn hold_stays_at_one() {
    let mut env = make_envelope(10.0, 100.0);
    env.note_on();

    // Complete the attack phase.
    let attack_samples = ms_to_samples(10.0);
    for _ in 0..attack_samples + 10 {
        env.next_sample();
    }

    // Hold — level should stay at 1.0.
    for i in 0..1000 {
        let sample = env.next_sample().0;
        assert!(
            (sample - 1.0).abs() < 1e-6,
            "sample {i}: hold level should be 1.0, got {sample}"
        );
    }
}

#[test]
fn release_ramps_down() {
    let mut env = make_envelope(10.0, 100.0);
    env.note_on();

    // Complete attack.
    let attack_samples = ms_to_samples(10.0);
    for _ in 0..attack_samples + 10 {
        env.next_sample();
    }

    env.note_off();

    let mut prev = 1.0_f32;
    // Release at 100ms = 4410 samples. Check first 4000 are monotonically decreasing.
    for i in 0..4000 {
        let sample = env.next_sample().0;
        assert!(
            sample <= prev,
            "sample {i}: {sample} should be <= previous {prev}"
        );
        prev = sample;
    }
    assert!(prev < 1.0, "release should decrease from 1.0");
}

#[test]
fn release_reaches_idle() {
    let mut env = make_envelope(10.0, 100.0);
    env.note_on();

    // Complete attack.
    let attack_samples = ms_to_samples(10.0);
    for _ in 0..attack_samples + 10 {
        env.next_sample();
    }

    env.note_off();

    // Release at 100ms = 4410 samples. Run extra to ensure idle.
    let release_samples = ms_to_samples(100.0);
    for _ in 0..release_samples + 10 {
        env.next_sample();
    }

    assert_eq!(env.state, EnvState::Idle, "should be Idle after release");
    assert_eq!(env.next_sample().0, 0.0, "Idle should output 0.0");
}

#[test]
fn retrigger_preserves_level() {
    let mut env = make_envelope(10.0, 100.0);
    env.note_on();

    // Advance partway through attack to get a nonzero level.
    for _ in 0..200 {
        env.next_sample();
    }
    let level_before = env.level.0;
    assert!(level_before > 0.0, "level should be nonzero mid-attack");

    // Retrigger — level should be preserved and state should be Attack.
    env.note_on();
    assert_eq!(
        env.state,
        EnvState::Attack,
        "state should be Attack after retrigger"
    );

    let sample = env.next_sample().0;
    assert!(
        sample >= level_before,
        "retrigger should preserve level (expected >= {level_before}, got {sample})"
    );
}

#[test]
fn retrigger_during_release_preserves_level() {
    let mut env = make_envelope(10.0, 100.0);
    env.note_on();

    // Complete attack phase.
    let attack_samples = ms_to_samples(10.0);
    for _ in 0..attack_samples + 10 {
        env.next_sample();
    }

    // Enter release and advance partway.
    env.note_off();
    for _ in 0..500 {
        env.next_sample();
    }

    let level_before = env.level.0;
    assert!(
        level_before > 0.0 && level_before < 1.0,
        "level should be mid-release, got {level_before}"
    );

    // Retrigger mid-release — level should be preserved and state should be Attack.
    env.note_on();
    assert_eq!(
        env.state,
        EnvState::Attack,
        "state should be Attack after retrigger"
    );

    let sample = env.next_sample().0;
    assert!(
        sample >= level_before,
        "retrigger mid-release should preserve level (expected >= {level_before}, got {sample})"
    );
}

#[test]
fn is_idle_when_default() {
    let env = ArEnvelope::<F>::default();
    assert!(env.is_idle(), "fresh envelope should be idle");
}

#[test]
fn is_not_idle_during_attack() {
    let mut env = make_envelope(10.0, 100.0);
    env.note_on();
    assert!(!env.is_idle(), "envelope should not be idle during attack");
}

#[test]
fn is_not_idle_during_release() {
    let mut env = make_envelope(10.0, 100.0);
    env.note_on();
    // Complete attack.
    let attack_samples = ms_to_samples(10.0);
    for _ in 0..attack_samples + 10 {
        env.next_sample();
    }
    env.note_off();
    // Advance partway through release.
    for _ in 0..500 {
        env.next_sample();
    }
    assert!(!env.is_idle(), "envelope should not be idle during release");
}

#[test]
fn is_releasing_during_release() {
    let mut env = make_envelope(10.0, 100.0);
    env.note_on();
    // Complete attack.
    let attack_samples = ms_to_samples(10.0);
    for _ in 0..attack_samples + 10 {
        env.next_sample();
    }
    env.note_off();
    // Advance partway through release.
    for _ in 0..500 {
        env.next_sample();
    }
    assert!(
        env.is_releasing(),
        "envelope should be releasing during release phase"
    );
}

#[test]
fn is_not_releasing_during_attack() {
    let mut env = make_envelope(10.0, 100.0);
    env.note_on();
    assert!(
        !env.is_releasing(),
        "envelope should not be releasing during attack"
    );
}

#[test]
fn is_not_releasing_when_idle() {
    let env = ArEnvelope::<F>::default();
    assert!(
        !env.is_releasing(),
        "fresh envelope should not be releasing"
    );
}

#[test]
fn attack_is_convex() {
    // Exponential attack: increments should decrease over time
    // (fast initial rise, settling toward peak).
    let attack_ms = 50.0;
    let mut env = make_envelope(attack_ms, 100.0);
    env.note_on();

    let attack_samples = ms_to_samples(attack_ms);
    let quarter = attack_samples / 4;

    // Measure level at 25% and 50% of attack time.
    for _ in 0..quarter {
        env.next_sample();
    }
    let level_25 = env.level.0;

    for _ in 0..quarter {
        env.next_sample();
    }
    let level_50 = env.level.0;

    for _ in 0..quarter {
        env.next_sample();
    }
    let level_75 = env.level.0;

    // Early increment (0→25%) should be larger than late increment (50→75%).
    let early_increment = level_25; // from 0.0 to level_25
    let late_increment = level_75 - level_50;
    assert!(
        early_increment > late_increment,
        "attack should be convex: early increment ({early_increment}) > late increment ({late_increment})"
    );
}

#[test]
fn release_is_concave() {
    // Exponential release: early drop should be larger than late drop
    // (fast initial decay, long tail).
    let release_ms = 100.0;
    let mut env = make_envelope(10.0, release_ms);
    env.note_on();

    // Complete attack.
    let attack_samples = ms_to_samples(10.0);
    for _ in 0..attack_samples + 10 {
        env.next_sample();
    }

    env.note_off();

    let release_samples = ms_to_samples(release_ms);
    let quarter = release_samples / 4;

    // Measure level at 25% and 50% of release time.
    for _ in 0..quarter {
        env.next_sample();
    }
    let level_25 = env.level.0;

    for _ in 0..quarter {
        env.next_sample();
    }
    let level_50 = env.level.0;

    for _ in 0..quarter {
        env.next_sample();
    }
    let level_75 = env.level.0;

    // Early drop (100%→25%) should be larger than late drop (50%→75%).
    let early_drop = 1.0 - level_25;
    let late_drop = level_50 - level_75;
    assert!(
        early_drop > late_drop,
        "release should be concave: early drop ({early_drop}) > late drop ({late_drop})"
    );
}

/// Count samples until the envelope reaches 1.0 (within tolerance), or `max` if it never does.
fn samples_to_reach_one(env: &mut ArEnvelope<F>, max: usize) -> usize {
    for i in 0..max {
        if (env.next_sample().0 - 1.0).abs() < 1e-6 {
            return i;
        }
    }
    max
}

#[test]
fn retrigger_from_higher_level_reaches_one_sooner() {
    // With exponential attack, retrigger from 0.5 should reach 1.0
    // in fewer samples than from 0.0 (less remaining distance).
    let attack_ms = 10.0;
    let max_samples = ms_to_samples(attack_ms) + 100;

    let mut env_from_zero = make_envelope(attack_ms, 100.0);
    env_from_zero.note_on();
    let samples_from_zero = samples_to_reach_one(&mut env_from_zero, max_samples);

    let mut env_from_half = make_envelope(attack_ms, 100.0);
    env_from_half.note_on_at_level(F(0.5));
    let samples_from_half = samples_to_reach_one(&mut env_from_half, max_samples);

    assert!(
        samples_from_half < samples_from_zero,
        "retrigger from 0.5 should reach 1.0 sooner ({samples_from_half}) than from 0.0 ({samples_from_zero})"
    );
}

#[test]
fn retrigger_attack_completes_within_attack_time() {
    // After retrigger from mid-release, the attack should still complete
    // within the configured attack_ms (plus margin for threshold snap).
    let attack_ms = 10.0;
    let release_ms = 100.0;

    let mut env = make_envelope(attack_ms, release_ms);
    env.note_on();

    // Complete attack + hold.
    let attack_samples = ms_to_samples(attack_ms);
    for _ in 0..attack_samples + 10 {
        env.next_sample();
    }

    // Release partway.
    env.note_off();
    let half_release = ms_to_samples(release_ms) / 2;
    for _ in 0..half_release {
        env.next_sample();
    }
    let level_at_retrigger = env.level.0;
    assert!(
        level_at_retrigger > 0.0 && level_at_retrigger < 1.0,
        "expected mid-release level, got {level_at_retrigger}"
    );

    // Retrigger — should reach 1.0 within attack_samples (faster than
    // from 0.0 because less remaining distance with exponential).
    env.set_attack(F(attack_ms), F(TEST_SAMPLE_RATE));
    env.note_on();
    for _ in 0..attack_samples + 10 {
        env.next_sample();
    }
    assert!(
        (env.level.0 - 1.0).abs() < 1e-6,
        "level should reach 1.0 after full attack time on retrigger, got {}",
        env.level.0
    );
}

#[test]
fn is_idle_after_release_completes() {
    let mut env = make_envelope(10.0, 100.0);
    env.note_on();
    // Complete attack.
    let attack_samples = ms_to_samples(10.0);
    for _ in 0..attack_samples + 10 {
        env.next_sample();
    }
    env.note_off();
    // Complete release.
    let release_samples = ms_to_samples(100.0);
    for _ in 0..release_samples + 10 {
        env.next_sample();
    }
    assert!(
        env.is_idle(),
        "envelope should be idle after release completes"
    );
}

// --- note_on_at_level tests ---

#[test]
fn note_on_at_level_sets_initial_level() {
    let mut env = make_envelope(10.0, 100.0);
    env.note_on_at_level(F(0.5));

    // First next_sample() applies exponential approach:
    // level = 1.0 - (1.0 - 0.5) * attack_coeff
    let attack_samples = 10.0 * TEST_SAMPLE_RATE / 1000.0;
    let attack_coeff = (-num_tc() / attack_samples).exp();
    let expected = 1.0 - (1.0 - 0.5) * attack_coeff;
    let sample = env.next_sample().0;
    assert!(
        (sample - expected).abs() < 1e-6,
        "first sample should be ~{expected}, got {sample}"
    );
}

#[test]
fn note_on_at_level_zero_matches_note_on() {
    let mut env_a = make_envelope(10.0, 100.0);
    let mut env_b = make_envelope(10.0, 100.0);

    env_a.note_on();
    env_b.note_on_at_level(F(0.0));

    // Both should produce identical output for the full attack phase.
    let attack_samples = ms_to_samples(10.0);
    for i in 0..attack_samples + 10 {
        let a = env_a.next_sample().0;
        let b = env_b.next_sample().0;
        assert!(
            (a - b).abs() < 1e-6,
            "sample {i}: note_on ({a}) and note_on_at_level(0.0) ({b}) should match"
        );
    }
}

#[test]
fn note_on_at_level_one_holds_at_one() {
    let mut env = make_envelope(10.0, 100.0);
    env.note_on_at_level(F(1.0));

    // Already at target — increment should be 0, level holds at 1.0.
    for i in 0..100 {
        let sample = env.next_sample().0;
        assert!(
            (sample - 1.0).abs() < 1e-6,
            "sample {i}: should hold at 1.0, got {sample}"
        );
    }
}

#[test]
fn note_on_at_level_clamps_input() {
    let mut env = make_envelope(10.0, 100.0);

    // Value > 1.0 should be clamped to 1.0.
    env.note_on_at_level(F(2.0));
    let sample = env.next_sample().0;
    assert!(
        (sample - 1.0).abs() < 1e-6,
        "level > 1.0 should be clamped, got {sample}"
    );

    // Reset and test value < 0.0 — should be clamped to 0.0.
    env.reset();
    env.set_attack(F(10.0), F(TEST_SAMPLE_RATE));
    env.note_on_at_level(F(-1.0));
    let sample = env.next_sample().0;
    // Should behave like note_on_at_level(0.0): first sample uses exponential
    // approach from 0.0: level = 1.0 - (1.0 - 0.0) * attack_coeff.
    let attack_samples = 10.0 * TEST_SAMPLE_RATE / 1000.0;
    let attack_coeff = (-num_tc() / attack_samples).exp();
    let expected = 1.0 - attack_coeff;
    assert!(
        (sample - expected).abs() < 1e-6,
        "level < 0.0 should be clamped to 0.0, got {sample}"
    );
}

#[test]
fn note_off_while_idle_stays_idle() {
    let mut env = make_envelope(10.0, 100.0);
    assert!(env.is_idle(), "fresh envelope should be idle");

    env.note_off();

    assert!(
        env.is_idle(),
        "note_off on idle envelope should remain idle"
    );
    assert_eq!(env.next_sample().0, 0.0, "idle envelope should output 0.0");
}

#[test]
fn note_off_at_zero_level_goes_idle() {
    let mut env = make_envelope(10.0, 100.0);
    // Enter attack but don't advance — level is still 0.0.
    env.note_on();
    assert_eq!(
        env.level.0, 0.0,
        "level should be 0.0 immediately after note_on"
    );

    // Immediately release before any next_sample() call.
    env.note_off();

    assert!(
        env.is_idle(),
        "note_off at zero level should go straight to Idle"
    );
    assert_eq!(env.next_sample().0, 0.0, "idle envelope should output 0.0");
}

#[test]
fn reset_clears_derived_coefficients() {
    let mut env = make_envelope(10.0, 100.0);
    env.note_on();
    // Advance partway so coefficients have been computed.
    for _ in 0..200 {
        env.next_sample();
    }
    env.note_off();

    env.reset();

    // After reset, coefficients should be 1.0 (infinitely slow = no change),
    // matching Default::default(). A note_on() without set_attack() produces
    // no ramp (level stays at its current value).
    assert_eq!(
        env.attack_coeff.0, 1.0,
        "attack_coeff should be 1.0 after reset"
    );
    assert_eq!(
        env.release_coeff.0, 1.0,
        "release_coeff should be 1.0 after reset"
    );
}

#[test]
fn num_tc_matches_idle_threshold() {
    let idle_threshold = f32::from_bits(IDLE_THRESHOLD);
    let num_tc = num_tc();
    let expected = -(idle_threshold.ln());
    assert!(
        (num_tc - expected).abs() < 1e-3,
        "NUM_TC ({num_tc}) != -ln(IDLE_THRESHOLD) ({expected})"
    );
}

/// Times over their whole ranges, from short to long.
fn spread(lo: f32, hi: f32, steps: usize) -> Vec<f32> {
    (0..steps)
        .map(|i| lo + (hi - lo) * (i as f32 / steps as f32))
        .collect()
}

#[test]
fn envelope_output_bounded() {
    for attack_ms in spread(1.0, 5000.0, 7) {
        for release_ms in spread(1.0, 10000.0, 7) {
            let mut env = ArEnvelope::<F>::default();
            env.set_attack(F(attack_ms), F(TEST_SAMPLE_RATE));
            env.set_release(F(release_ms), F(TEST_SAMPLE_RATE));
            env.note_on();
            for _ in 0..ms_to_samples(attack_ms) + 10 {
                let v = env.next_sample().0;
                assert!(
                    v.is_finite() && v >= 0.0 && v <= 1.0,
                    "attack phase: value {v} out of [0, 1]"
                );
            }
            env.note_off();
            for _ in 0..ms_to_samples(release_ms) + 10 {
                let v = env.next_sample().0;
                assert!(
                    v.is_finite() && v >= 0.0 && v <= 1.0,
                    "release phase: value {v} out of [0, 1]"
                );
            }
        }
    }
}

#[test]
fn constants_encode_their_numbers() {
    assert_eq!(f32::from_bits(IDLE_THRESHOLD), 1e-4);
    assert_eq!(f32::from_bits(NUM_TC), 9.2103);
    assert_eq!(f32::from_bits(MS_PER_SECOND), 1000.0);
}

#[test]
fn default_state_is_idle() {
    assert_eq!(EnvState::default(), EnvState::Idle);
}

#[test]
fn coefficient_is_the_exponential_of_the_time() {
    let env = make_envelope(10.0, 100.0);
    assert_eq!(env.attack_coeff.0, (-9.2103_f32 / 441.0).exp());
    assert_eq!(env.release_coeff.0, (-9.2103_f32 / 4410.0).exp());
}

#[test]
fn times_below_a_millisecond_count_as_one() {
    let shortest = make_envelope(1.0, 1.0);
    for ms in [0.5, 0.0, -7.0, f32::NAN] {
        let env = make_envelope(ms, ms);
        assert_eq!(env.attack_coeff, shortest.attack_coeff);
        assert_eq!(env.release_coeff, shortest.release_coeff);
    }
}

#[test]
fn times_below_a_sample_count_as_one() {
    let mut env = ArEnvelope::<F>::default();
    env.set_attack(F(1.0), F(10.0));
    assert_eq!(env.attack_coeff.0, (-9.2103_f32).exp());
}

#[test]
fn first_sample_of_an_attack_is_exact() {
    let mut env = ArEnvelope {
        state: EnvState::Attack,
        level: F(0.5),
        attack_coeff: F(0.5),
        release_coeff: F(1.0),
    };
    assert_eq!(env.next_sample(), F(0.75));
    assert_eq!(env.next_sample(), F(0.875));
}

#[test]
fn first_sample_of_a_release_is_exact() {
    let mut env = ArEnvelope {
        state: EnvState::Release,
        level: F(0.5),
        attack_coeff: F(1.0),
        release_coeff: F(0.5),
    };
    assert_eq!(env.next_sample(), F(0.25));
    assert_eq!(env.next_sample(), F(0.125));
    assert_eq!(env.state, EnvState::Release);
}

#[test]
fn attack_snaps_within_the_threshold() {
    let mut env = ArEnvelope {
        state: EnvState::Attack,
        level: F(0.99995),
        attack_coeff: F(1.0),
        release_coeff: F(1.0),
    };
    assert_eq!(env.next_sample(), F(1.0));
    assert_eq!(env.state, EnvState::Attack);
}

#[test]
fn release_snaps_at_the_threshold_itself() {
    let mut env = ArEnvelope {
        state: EnvState::Release,
        level: F(1e-4),
        attack_coeff: F(1.0),
        release_coeff: F(1.0),
    };
    assert_eq!(env.next_sample(), F(0.0));
    assert_eq!(env.state, EnvState::Idle);
}

#[test]
fn samples_neither_begin_nor_end_an_attack() {
    let mut env = make_envelope(10.0, 100.0);
    env.next_sample();
    assert_eq!(env.state, EnvState::Idle);
    env.note_on();
    for _ in 0..2000 {
        env.next_sample();
        assert_eq!(env.state, EnvState::Attack);
    }
    env.note_off();
    assert_eq!(env.state, EnvState::Release);
    for _ in 0..10000 {
        env.next_sample();
        assert_ne!(env.state, EnvState::Attack);
    }
    assert_eq!(env.state, EnvState::Idle);
}

#[test]
fn silence_is_at_zero_after_a_release() {
    let mut env = make_envelope(10.0, 100.0);
    env.note_on_at_level(F(0.8));
    env.note_off();
    while !env.is_idle() {
        env.next_sample();
    }
    assert_eq!(env.level, F(0.0));
}

#[test]
fn the_coefficient_of_another_phase_is_not_heard() {
    let mut env = make_envelope(10.0, 100.0);
    let mut other = make_envelope(10.0, 3.0);
    env.note_on();
    other.note_on();
    for _ in 0..500 {
        assert_eq!(env.next_sample(), other.next_sample());
    }
}

#[test]
fn every_output_is_bounded_in_any_order_of_calls() {
    let mut env = ArEnvelope::<F>::default();
    let mut seed: u32 = 12345;
    for _ in 0..20000 {
        seed = seed.wrapping_mul(1664525).wrapping_add(1013904223);
        let x = (seed >> 8) as f32 / 16777216.0;
        match seed >> 29 {
            0 => env.set_attack(F(x * 40.0 - 5.0), F(TEST_SAMPLE_RATE)),
            1 => env.set_release(F(x * 40.0 - 5.0), F(TEST_SAMPLE_RATE)),
            2 => env.note_on(),
            3 => env.note_on_at_level(F(x * 4.0 - 2.0)),
            4 => env.note_off(),
            _ => {
                let idle = env.is_idle();
                let v = env.next_sample().0;
                assert!((0.0..=1.0).contains(&v));
                assert!(!idle || (v == 0.0 && env.is_idle()));
            }
        }
    }
}

#[test]
fn release_level_is_the_product_of_its_coefficients() {
    let mut env = make_envelope(1.0, 50.0);
    env.note_on_at_level(F(0.8));
    env.note_off();
    let coeff = env.release_coeff.0;
    let start = env.level.0;
    let mut product = start;
    let mut n: usize = 0;
    loop {
        product *= coeff;
        n += 1;
        let out = env.next_sample().0;
        if product <= 1e-4 {
            assert_eq!(out, 0.0);
            assert_eq!(env.state, EnvState::Idle);
            break;
        }
        assert_eq!(out, product, "sample {n}");
        assert_eq!(env.state, EnvState::Release);
    }
    // A duration is the time from 1.0 to the threshold.
    let samples = ms_to_samples(50.0);
    assert!(n > samples - 100 && n < samples, "idle after {n} samples");
}

#[test]
fn attack_distance_is_the_product_of_its_coefficients() {
    let mut env = make_envelope(20.0, 50.0);
    env.note_on();
    let coeff = env.attack_coeff.0;
    let mut level = 0.0f32;
    let mut n: usize = 0;
    loop {
        level = 1.0 - (1.0 - level) * coeff;
        n += 1;
        let out = env.next_sample().0;
        if level >= 1.0 - 1e-4 {
            assert_eq!(out, 1.0);
            break;
        }
        assert_eq!(out, level, "sample {n}");
    }
    let samples = ms_to_samples(20.0);
    assert!(n.abs_diff(samples) < 10, "arrived after {n} samples");
}

#[test]
fn attack_levels_never_fall() {
    for attack_ms in [1.0, 10.0, 300.0, 5000.0] {
        for start in [0.0, 1.0 / 16_777_216.0, 0.25, 0.3, 0.75, 0.999] {
            let mut env = make_envelope(attack_ms, 50.0);
            env.note_on_at_level(F(start));
            let mut last = env.level.0;
            for _ in 0..30_000 {
                let out = env.next_sample().0;
                assert!(out >= last, "{attack_ms} ms from {start}");
                last = out;
            }
        }
    }
}

#[test]
fn attack_loses_a_level_too_small_to_be_restored() {
    let mut env = ArEnvelope {
        state: EnvState::Attack,
        level: F(1e-10),
        attack_coeff: F(1.0),
        release_coeff: F(1.0),
    };
    assert_eq!(env.next_sample(), F(0.0));
}

#[test]
fn long_attack_stands_still_below_one() {
    let mut env = make_envelope(5000.0, 50.0);
    env.note_on();
    for _ in 0..300_000 {
        env.next_sample();
    }
    let level = env.level;
    assert!(level.0 > 0.999 && level.0 < 0.9995, "stands at {}", level.0);
    assert_eq!(env.next_sample(), level);
}

#[test]
fn longest_release_ends_in_its_time() {
    let mut env = make_envelope(1.0, 10_000.0);
    env.note_on_at_level(F(1.0));
    env.note_off();
    let mut n: usize = 0;
    while env.state == EnvState::Release {
        env.next_sample();
        n += 1;
    }
    let samples = ms_to_samples(10_000.0);
    assert!(n.abs_diff(samples) < samples / 100, "idle after {n} samples");
}
