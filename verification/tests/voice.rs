//! Voices, and the choice of a voice.

use sine_one::dsp::envelope::EnvState;
use sine_one::dsp::svf::MAX_CUTOFF_HZ;
use sine_one::dsp::voice::{
    allocate_voice, find_oldest, ramp_samples, NoteOnParams, Voice, VoiceFilter, MAX_VOICES,
    MIN_ATTACK_MS, PAN_RAMP_SECS, TRANSIENT_GATE_MS, VELOCITY_RAMP_SECS,
};
use sine_one::scalar::Scalar;

/// Single-precision numbers.
#[derive(Clone, Copy, Debug, PartialEq)]
struct F(f32);

impl Scalar for F {
    fn from_bits(bits: u32) -> Self {
        F(f32::from_bits(bits))
    }
    fn from_usize(count: usize) -> Self {
        F(count as f32)
    }
    fn to_u32(self) -> u32 {
        self.0 as u32
    }
    fn plus(self, other: Self) -> Self {
        F(self.0 + other.0)
    }
    fn minus(self, other: Self) -> Self {
        F(self.0 - other.0)
    }
    fn times(self, other: Self) -> Self {
        F(self.0 * other.0)
    }
    fn over(self, other: Self) -> Self {
        F(self.0 / other.0)
    }
    fn remainder(self, other: Self) -> Self {
        F(self.0 % other.0)
    }
    fn negated(self) -> Self {
        F(-self.0)
    }
    fn magnitude(self) -> Self {
        F(self.0.abs())
    }
    fn lesser(self, other: Self) -> Self {
        F(self.0.min(other.0))
    }
    fn greater(self, other: Self) -> Self {
        F(self.0.max(other.0))
    }
    fn square_root(self) -> Self {
        F(self.0.sqrt())
    }
    fn sine(self) -> Self {
        F(self.0.sin())
    }
    fn cosine(self) -> Self {
        F(self.0.cos())
    }
    fn tangent(self) -> Self {
        F(self.0.tan())
    }
    fn exponential(self) -> Self {
        F(self.0.exp())
    }
    fn logarithm(self) -> Self {
        F(self.0.ln())
    }
    fn power(self, exponent: Self) -> Self {
        F(self.0.powf(exponent.0))
    }
    fn is_below(self, other: Self) -> bool {
        self.0 < other.0
    }
    fn is_above(self, other: Self) -> bool {
        self.0 > other.0
    }
    fn is_at_most(self, other: Self) -> bool {
        self.0 <= other.0
    }
    fn is_at_least(self, other: Self) -> bool {
        self.0 >= other.0
    }
    fn differs_from(self, other: Self) -> bool {
        self.0 != other.0
    }
}

/// Frequency in Hz of a MIDI note, with A4 at 440.
fn midi_note_to_freq(note: u8) -> f32 {
    2.0_f32.powf((note as f32 - 69.0) / 12.0) * 440.0
}

/// One stereo sample of a voice, as numbers.
fn render(
    voice: &mut Voice<F>,
    fine_tune_cents: f32,
    fold: f32,
    lpg_depth: f32,
    lpg_cutoff_hz: f32,
    lpg_resonance: f32,
    sample_rate: f32,
) -> (f32, f32) {
    let (left, right) = voice.render_sample(
        F(fine_tune_cents),
        F(fold),
        F(lpg_depth),
        F(lpg_cutoff_hz),
        F(lpg_resonance),
        F(sample_rate),
    );
    (left.0, right.0)
}

const SR: f32 = 44100.0;
const A4_FREQ: f32 = 440.0;
const A4_NOTE: u8 = 69;

/// LPG-off render args: (lpg_depth, lpg_cutoff_hz, lpg_resonance).
/// Used in tests that don't exercise the LPG to make the bypass intent explicit.
const LPG_OFF: (f32, f32, f32) = (0.0, f32::from_bits(MAX_CUTOFF_HZ), 0.0);

/// Helper: trigger a note on a voice with standard test parameters (10ms attack).
fn trigger_voice(voice: &mut Voice<F>, note: u8, velocity: f32, start_phase_norm: f32) {
    trigger_voice_with_attack(voice, note, velocity, start_phase_norm, 10.0);
}

#[test]
fn voice_starts_idle() {
    let voice = Voice::<F>::default();
    assert!(voice.is_idle(), "fresh voice should be idle");
    assert_eq!(voice.note(), None, "fresh voice should have no note");
}

#[test]
fn voice_note_on_produces_output() {
    let mut voice = Voice::default();
    trigger_voice(&mut voice, A4_NOTE, 0.8, 0.25); // 90° start phase

    assert!(!voice.is_idle(), "voice should not be idle after note_on");
    assert_eq!(voice.note(), Some(A4_NOTE));

    // Render several samples and check for nonzero output.
    let mut found_nonzero = false;
    for _ in 0..100 {
        let (l, r) = render(&mut voice, 0.0, 0.0, LPG_OFF.0, LPG_OFF.1, LPG_OFF.2, SR);
        if l != 0.0 || r != 0.0 {
            found_nonzero = true;
            break;
        }
    }
    assert!(
        found_nonzero,
        "voice should produce nonzero output after note_on"
    );
}

#[test]
fn voice_note_off_releases() {
    let mut voice = Voice::default();
    trigger_voice(&mut voice, A4_NOTE, 0.8, 0.0);

    // Advance through attack.
    let attack_samples = (10.0 * SR / 1000.0) as usize;
    for _ in 0..attack_samples + 10 {
        render(&mut voice, 0.0, 0.0, LPG_OFF.0, LPG_OFF.1, LPG_OFF.2, SR);
    }

    voice.note_off(F(100.0), F(SR));
    assert_eq!(voice.note(), None, "note should be cleared after note_off");
    assert!(
        voice.is_releasing(),
        "voice should be releasing after note_off"
    );

    // Complete release.
    let release_samples = (100.0 * SR / 1000.0) as usize;
    for _ in 0..release_samples + 10 {
        render(&mut voice, 0.0, 0.0, LPG_OFF.0, LPG_OFF.1, LPG_OFF.2, SR);
    }
    assert!(
        voice.is_idle(),
        "voice should be idle after release completes"
    );
}

#[test]
fn voice_reset_zeros_state() {
    let mut voice = Voice::default();
    trigger_voice(&mut voice, A4_NOTE, 0.8, 0.0);
    for _ in 0..100 {
        render(&mut voice, 0.0, 0.0, LPG_OFF.0, LPG_OFF.1, LPG_OFF.2, SR);
    }

    voice.reset();
    assert!(voice.is_idle(), "voice should be idle after reset");
    assert_eq!(voice.note(), None, "note should be None after reset");
    assert_eq!(voice.pan().0, 0.0, "pan should be 0.0 after reset");
    assert_eq!(voice.age(), 0, "age should be 0 after reset");

    // Should produce silence.
    let (l, r) = render(&mut voice, 0.0, 0.0, LPG_OFF.0, LPG_OFF.1, LPG_OFF.2, SR);
    assert_eq!((l, r), (0.0, 0.0), "reset voice should output silence");
}

#[test]
fn voice_render_returns_stereo() {
    let mut voice = Voice::default();
    // Use non-zero pan to verify stereo routing.
    voice.set_pan(F(1.0), F(SR)); // hard right
    trigger_voice(&mut voice, A4_NOTE, 1.0, 0.25); // 90° start phase for immediate signal

    // Render through the pan ramp so gains have settled.
    let ramp_warmup = (f32::from_bits(PAN_RAMP_SECS) * SR) as usize + 10;
    for _ in 0..ramp_warmup {
        render(&mut voice, 0.0, 0.0, LPG_OFF.0, LPG_OFF.1, LPG_OFF.2, SR);
    }

    // Now measure stereo balance after ramp has completed.
    let mut left_sum = 0.0_f32;
    let mut right_sum = 0.0_f32;
    for _ in 0..50 {
        let (l, r) = render(&mut voice, 0.0, 0.0, LPG_OFF.0, LPG_OFF.1, LPG_OFF.2, SR);
        left_sum += l.abs();
        right_sum += r.abs();
    }

    // Hard right: left should be ~0, right should have energy.
    assert!(
        left_sum < 0.01,
        "hard-right pan should produce near-zero left, got {left_sum}"
    );
    assert!(
        right_sum > 0.1,
        "hard-right pan should produce nonzero right, got {right_sum}"
    );
}

#[test]
fn voice_retrigger_continues_phase_at_zero_start() {
    let mut voice = Voice::default();
    trigger_voice(&mut voice, A4_NOTE, 0.8, 0.0);

    // Advance to build up some state.
    for _ in 0..200 {
        render(&mut voice, 0.0, 0.0, LPG_OFF.0, LPG_OFF.1, LPG_OFF.2, SR);
    }

    // Retrigger at 0° start phase — should NOT reset phase.
    // The voice is not idle, so smooth retrigger applies.
    assert!(!voice.is_idle());
    let velocity_before = voice.velocity_smoother.next_sample().0;
    // Re-advance smoother state (consumed one sample above).
    voice.velocity_smoother.set_immediate(F(velocity_before));

    voice.note_on(NoteOnParams {
        note: A4_NOTE,
        velocity: F(1.0),
        base_freq: F(A4_FREQ),
        start_phase_normalized: F(0.0),
        sample_rate: F(SR),
        attack_ms: F(10.0),
        age: 2,
    });

    // Velocity should be ramping (not immediate) — check that first sample
    // after retrigger is not exactly the new velocity.
    let vel_after = voice.velocity_smoother.next_sample().0;
    assert!(
        (vel_after - 1.0).abs() > 0.001,
        "velocity should ramp on 0° retrigger, got {vel_after}"
    );
}

#[test]
fn voice_retrigger_is_smooth_at_nonzero_start() {
    let mut voice = Voice::default();
    trigger_voice(&mut voice, A4_NOTE, 0.5, 0.0);

    // Advance to build up some state.
    for _ in 0..200 {
        render(&mut voice, 0.0, 0.0, LPG_OFF.0, LPG_OFF.1, LPG_OFF.2, SR);
    }
    assert!(!voice.is_idle());

    // Retrigger at 90° (0.25 normalized) — should still smooth retrigger
    // (phase continues, velocity ramps) to avoid uncontrolled clicks.
    voice.note_on(NoteOnParams {
        note: A4_NOTE,
        velocity: F(1.0),
        base_freq: F(A4_FREQ),
        start_phase_normalized: F(0.25),
        sample_rate: F(SR),
        attack_ms: F(10.0),
        age: 2,
    });

    // Velocity should ramp (not jump) — first sample should not be at target.
    let vel = voice.velocity_smoother.next_sample().0;
    assert!(
        (vel - 1.0).abs() > 0.001,
        "velocity should ramp on retrigger even with non-zero start phase, got {vel}"
    );
}

// --- allocate_voice tests ---

/// Helper: make a voice active with a given age by triggering note_on.
fn make_active_voice(age: u64, note: u8) -> Voice<F> {
    let mut v = Voice::default();
    v.note_on(NoteOnParams {
        note,
        velocity: F(0.8),
        base_freq: F(midi_note_to_freq(note)),
        start_phase_normalized: F(0.0),
        sample_rate: F(SR),
        attack_ms: F(10.0),
        age,
    });
    v
}

/// Helper: make a releasing voice with a given age.
fn make_releasing_voice(age: u64, note: u8) -> Voice<F> {
    let mut v = make_active_voice(age, note);
    // Advance through attack so release has a nonzero level.
    let attack_samples = (10.0 * SR / 1000.0) as usize;
    for _ in 0..attack_samples + 10 {
        render(&mut v, 0.0, 0.0, LPG_OFF.0, LPG_OFF.1, LPG_OFF.2, SR);
    }
    v.note_off(F(100.0), F(SR));
    v
}

#[test]
fn allocate_picks_idle_first() {
    let voices = [
        make_active_voice(1, 60),
        Voice::default(), // idle
        make_active_voice(2, 62),
        Voice::default(), // idle
    ];
    // Should pick the first idle voice (index 1).
    assert_eq!(allocate_voice(&voices, 4), 1);
}

#[test]
fn allocate_steals_oldest_releasing() {
    let voices = [
        make_active_voice(3, 60),
        make_releasing_voice(1, 62), // releasing, age 1 (oldest)
        make_releasing_voice(2, 64), // releasing, age 2
        make_active_voice(4, 65),
    ];
    // No idle voices. Should steal oldest releasing (index 1, age 1).
    assert_eq!(allocate_voice(&voices, 4), 1);
}

#[test]
fn allocate_steals_oldest_active() {
    let voices = [
        make_active_voice(3, 60),
        make_active_voice(1, 62), // oldest active (age 1)
        make_active_voice(2, 64),
        make_active_voice(4, 65),
    ];
    // No idle or releasing voices. Should steal oldest active (index 1, age 1).
    assert_eq!(allocate_voice(&voices, 4), 1);
}

#[test]
fn allocate_all_idle_returns_zero() {
    let voices: [Voice<F>; 4] = core::array::from_fn(|_| Voice::default());
    assert_eq!(allocate_voice(&voices, 4), 0);
}

#[test]
fn allocate_respects_voice_count_limit() {
    let voices = [
        make_active_voice(1, 60),
        make_active_voice(2, 62),
        Voice::default(), // idle, but at index 2 (beyond voice_count=2)
        Voice::default(),
    ];
    // voice_count=2, so only slots 0..2 are searched.
    // Both are active, so steal oldest (index 0, age 1).
    assert_eq!(allocate_voice(&voices, 2), 0);
}

// --- start phase transient tests ---

/// Helper: trigger a note with a specific attack time.
fn trigger_voice_with_attack(
    voice: &mut Voice<F>,
    note: u8,
    velocity: f32,
    start_phase_norm: f32,
    attack_ms: f32,
) {
    let base_freq = midi_note_to_freq(note);
    voice.note_on(NoteOnParams {
        note,
        velocity: F(velocity),
        base_freq: F(base_freq),
        start_phase_normalized: F(start_phase_norm),
        sample_rate: F(SR),
        attack_ms: F(attack_ms),
        age: 1,
    });
}

#[test]
fn voice_from_silence_at_90_degrees_short_attack_has_immediate_output() {
    let mut voice = Voice::default();
    // 90° = 0.25 normalized, 1ms attack (fully open gate).
    trigger_voice_with_attack(&mut voice, A4_NOTE, 1.0, 0.25, 1.0);

    // First render_sample should produce non-negligible output because
    // the envelope starts at initial_level = |sin(90°)| * 1.0 = 1.0.
    let (l, r) = render(&mut voice, 0.0, 0.0, LPG_OFF.0, LPG_OFF.1, LPG_OFF.2, SR);
    let mono = l.abs().max(r.abs());
    assert!(
        mono > 0.5,
        "90° start phase with 1ms attack should produce immediate output, got {mono}"
    );
}

#[test]
fn voice_from_silence_at_90_degrees_long_attack_starts_quiet() {
    let mut voice = Voice::default();
    // 90° = 0.25 normalized, 500ms attack (gate fully closed).
    trigger_voice_with_attack(&mut voice, A4_NOTE, 1.0, 0.25, 500.0);

    // First sample should be near zero — long attack suppresses the transient.
    let (l, r) = render(&mut voice, 0.0, 0.0, LPG_OFF.0, LPG_OFF.1, LPG_OFF.2, SR);
    let mono = l.abs().max(r.abs());
    assert!(
        mono < 0.01,
        "90° start phase with 500ms attack should start quiet, got {mono}"
    );
}

#[test]
fn voice_from_silence_at_zero_degrees_starts_quiet() {
    let mut voice = Voice::default();
    // 0° = 0.0 normalized, 1ms attack (gate open, but sin(0) = 0).
    trigger_voice_with_attack(&mut voice, A4_NOTE, 1.0, 0.0, 1.0);

    // First sample should be near zero — sin(0°) = 0, no transient regardless.
    let (l, r) = render(&mut voice, 0.0, 0.0, LPG_OFF.0, LPG_OFF.1, LPG_OFF.2, SR);
    let mono = l.abs().max(r.abs());
    assert!(
        mono < 0.01,
        "0° start phase should start quiet regardless of attack, got {mono}"
    );
}

// --- pan smoothing tests ---

#[test]
fn pan_change_is_smoothed() {
    let mut voice = Voice::default();
    trigger_voice(&mut voice, A4_NOTE, 1.0, 0.25); // 90° for immediate signal

    // Set pan hard-left and render through the full ramp to settle.
    voice.set_pan(F(-1.0), F(SR));
    let ramp_samples = (f32::from_bits(PAN_RAMP_SECS) * SR) as usize + 10;
    for _ in 0..ramp_samples {
        render(&mut voice, 0.0, 0.0, LPG_OFF.0, LPG_OFF.1, LPG_OFF.2, SR);
    }

    // Now switch to hard-right. On the very first sample after the change,
    // the left channel should NOT be zero — it should still be near the old
    // hard-left gain, proving the pan is smoothed rather than instant.
    voice.set_pan(F(1.0), F(SR));
    let (left, _right) = render(&mut voice, 0.0, 0.0, LPG_OFF.0, LPG_OFF.1, LPG_OFF.2, SR);
    assert!(
        left.abs() > 0.01,
        "first sample after pan change should not be zero (smoothing), got left={left}"
    );
}

#[test]
fn pan_ramp_completes() {
    let mut voice = Voice::default();
    trigger_voice(&mut voice, A4_NOTE, 1.0, 0.25); // 90° for immediate signal

    // Set pan hard-right and render through the full ramp + margin.
    voice.set_pan(F(1.0), F(SR));
    let ramp_samples = (f32::from_bits(PAN_RAMP_SECS) * SR) as usize + 20;
    for _ in 0..ramp_samples {
        render(&mut voice, 0.0, 0.0, LPG_OFF.0, LPG_OFF.1, LPG_OFF.2, SR);
    }

    // After the ramp completes, left should be ~0 (hard-right pan).
    let mut left_sum = 0.0_f32;
    let mut right_sum = 0.0_f32;
    for _ in 0..50 {
        let (l, r) = render(&mut voice, 0.0, 0.0, LPG_OFF.0, LPG_OFF.1, LPG_OFF.2, SR);
        left_sum += l.abs();
        right_sum += r.abs();
    }
    assert!(
        left_sum < 0.01,
        "after ramp to hard-right, left should be ~0, got {left_sum}"
    );
    assert!(
        right_sum > 0.1,
        "after ramp to hard-right, right should have energy, got {right_sum}"
    );
}

// --- wavefold tests ---

#[test]
fn voice_render_fold_nonzero_changes_timbre() {
    // Two identical voices, one with fold=0, one with fold=0.5.
    // Their outputs should differ, proving fold is applied.
    let mut voice_dry = Voice::default();
    let mut voice_wet = Voice::default();
    trigger_voice(&mut voice_dry, A4_NOTE, 1.0, 0.0);
    trigger_voice(&mut voice_wet, A4_NOTE, 1.0, 0.0);

    // Advance both through attack.
    let attack_samples = (10.0 * SR / 1000.0) as usize + 10;
    for _ in 0..attack_samples {
        render(&mut voice_dry, 0.0, 0.0, LPG_OFF.0, LPG_OFF.1, LPG_OFF.2, SR);
        render(&mut voice_wet, 0.0, 0.5, LPG_OFF.0, LPG_OFF.1, LPG_OFF.2, SR);
    }

    // Compare several samples in the hold phase.
    let mut any_differ = false;
    for _ in 0..100 {
        let (dl, _) = render(&mut voice_dry, 0.0, 0.0, LPG_OFF.0, LPG_OFF.1, LPG_OFF.2, SR);
        let (wl, _) = render(&mut voice_wet, 0.0, 0.5, LPG_OFF.0, LPG_OFF.1, LPG_OFF.2, SR);
        if (dl - wl).abs() > 1e-6 {
            any_differ = true;
            break;
        }
    }
    assert!(
        any_differ,
        "fold=0.5 should produce different output than fold=0"
    );
}

// --- LPG tests ---

#[test]
fn voice_render_lpg_zero_depth_matches_bypass() {
    // Two identical voices: one with explicit lpg=0, one with default args.
    // Output should be identical since lpg_depth=0 bypasses the SVF.
    let mut voice_a = Voice::default();
    let mut voice_b = Voice::default();
    trigger_voice(&mut voice_a, A4_NOTE, 1.0, 0.0);
    trigger_voice(&mut voice_b, A4_NOTE, 1.0, 0.0);

    let attack_samples = (10.0 * SR / 1000.0) as usize + 10;
    for _ in 0..attack_samples {
        render(&mut voice_a, 0.0, 0.0, LPG_OFF.0, LPG_OFF.1, LPG_OFF.2, SR);
        render(&mut voice_b, 0.0, 0.0, 0.0, 500.0, 0.5, SR);
    }

    // In the hold phase, both should produce identical output because
    // lpg_depth=0 bypasses the filter regardless of cutoff/resonance.
    for _ in 0..100 {
        let (al, ar) = render(&mut voice_a, 0.0, 0.0, LPG_OFF.0, LPG_OFF.1, LPG_OFF.2, SR);
        let (bl, br) = render(&mut voice_b, 0.0, 0.0, 0.0, 500.0, 0.5, SR);
        assert_eq!((al, ar), (bl, br), "lpg_depth=0 should bypass filter");
    }
}

#[test]
fn voice_render_lpg_darkens_output() {
    // With lpg=1.0 and low cutoff, output should differ from lpg=0.
    let mut voice_dry = Voice::default();
    let mut voice_lpg = Voice::default();
    trigger_voice(&mut voice_dry, A4_NOTE, 1.0, 0.0);
    trigger_voice(&mut voice_lpg, A4_NOTE, 1.0, 0.0);

    // Advance through attack to hold phase.
    let attack_samples = (10.0 * SR / 1000.0) as usize + 10;
    for _ in 0..attack_samples {
        render(&mut voice_dry, 0.0, 0.0, LPG_OFF.0, LPG_OFF.1, LPG_OFF.2, SR);
        render(&mut voice_lpg, 0.0, 0.0, 1.0, 500.0, 0.0, SR);
    }

    // Compare samples — they should differ since the LPG filter is active.
    let mut any_differ = false;
    for _ in 0..100 {
        let (dl, _) = render(&mut voice_dry, 0.0, 0.0, LPG_OFF.0, LPG_OFF.1, LPG_OFF.2, SR);
        let (wl, _) = render(&mut voice_lpg, 0.0, 0.0, 1.0, 500.0, 0.0, SR);
        if (dl - wl).abs() > 1e-6 {
            any_differ = true;
            break;
        }
    }
    assert!(
        any_differ,
        "lpg=1.0 with 500Hz cutoff should produce different output than lpg=0"
    );
}

#[test]
fn voice_reset_clears_svf() {
    let mut voice = Voice::default();
    trigger_voice(&mut voice, A4_NOTE, 1.0, 0.0);

    // Process with LPG active to dirty SVF state.
    for _ in 0..100 {
        render(&mut voice, 0.0, 0.0, 1.0, 1000.0, 0.5, SR);
    }

    voice.reset();

    // After reset, the SVF state should be zero. Verify by checking that
    // a fresh voice and a reset voice produce the same output.
    let mut fresh = Voice::default();
    trigger_voice(&mut voice, A4_NOTE, 1.0, 0.0);
    trigger_voice(&mut fresh, A4_NOTE, 1.0, 0.0);

    for _ in 0..50 {
        let (rl, rr) = render(&mut voice, 0.0, 0.0, 1.0, 1000.0, 0.0, SR);
        let (fl, fr) = render(&mut fresh, 0.0, 0.0, 1.0, 1000.0, 0.0, SR);
        assert!(
            (rl - fl).abs() < 1e-6 && (rr - fr).abs() < 1e-6,
            "reset voice should match fresh voice: reset=({rl},{rr}) fresh=({fl},{fr})"
        );
    }
}

// --- own cases ---

/// A sample with everything but the oscillator, the envelope and the velocity
/// out of the way.
fn plain(voice: &mut Voice<F>) -> (f32, f32) {
    render(voice, 0.0, 0.0, LPG_OFF.0, LPG_OFF.1, LPG_OFF.2, SR)
}

#[test]
fn voice_constants_encode_their_numbers() {
    assert_eq!(MAX_VOICES, 8);
    assert_eq!(f32::from_bits(VELOCITY_RAMP_SECS), 0.002);
    assert_eq!(f32::from_bits(PAN_RAMP_SECS), 0.002);
    assert_eq!(f32::from_bits(TRANSIENT_GATE_MS), 10.0);
    assert_eq!(f32::from_bits(MIN_ATTACK_MS), 1.0);
}

#[test]
fn ramps_are_cut_to_whole_samples() {
    assert_eq!(ramp_samples(PAN_RAMP_SECS, F(44100.0)), 88);
    assert_eq!(ramp_samples(PAN_RAMP_SECS, F(499.0)), 0);
    assert_eq!(ramp_samples(PAN_RAMP_SECS, F(-1.0)), 0);
}

#[test]
fn first_sample_is_exact() {
    let mut voice = Voice::<F>::default();
    trigger_voice_with_attack(&mut voice, A4_NOTE, 0.5, 0.25, 1.0);
    let coeff = (-9.2103_f32 / 44.1).exp();
    let amplitude = (0.25 * std::f32::consts::TAU).sin().abs();
    let level = 1.0 - (1.0 - amplitude) * coeff;
    let level = if level >= 1.0 - 1e-4 { 1.0 } else { level };
    let mono = (0.25 * std::f32::consts::TAU).sin() * level * 0.5;
    let center = std::f32::consts::FRAC_PI_4;
    assert_eq!(
        plain(&mut voice),
        (mono * center.cos(), mono * center.sin())
    );
}

#[test]
fn transient_is_gated_linearly() {
    // Half way between the shortest attack and the closing time.
    let mut voice = Voice::<F>::default();
    trigger_voice_with_attack(&mut voice, A4_NOTE, 1.0, 0.125, 5.5);
    let amplitude = (0.125 * std::f32::consts::TAU).sin().abs();
    assert_eq!(voice.env.level, F(amplitude * 0.5));
}

#[test]
fn transient_is_closed_beyond_the_gate_time() {
    let mut voice = Voice::<F>::default();
    trigger_voice_with_attack(&mut voice, A4_NOTE, 1.0, 0.25, 10.0);
    assert_eq!(voice.env.level, F(0.0));
    assert_eq!(voice.env.state, EnvState::Attack);
}

#[test]
fn retrigger_keeps_phase_filter_and_pan() {
    let mut voice = Voice::<F>::default();
    voice.set_pan(F(0.5), F(SR));
    trigger_voice(&mut voice, A4_NOTE, 0.5, 0.0);
    for _ in 0..100 {
        render(&mut voice, 0.0, 0.0, 1.0, 1000.0, 0.5, SR);
    }
    let phase = voice.osc.phase;
    let filter = (voice.svf.ic1eq, voice.svf.ic2eq);
    let level = voice.env.level;
    trigger_voice(&mut voice, 72, 1.0, 0.25);
    assert_eq!(voice.osc.phase, phase);
    assert_eq!((voice.svf.ic1eq, voice.svf.ic2eq), filter);
    assert_eq!(voice.env.level, level);
    assert_eq!(voice.pan(), F(0.5));
    assert_eq!(voice.velocity_smoother.current, F(0.5));
    assert_eq!(voice.velocity_smoother.target, F(1.0));
    assert_eq!(voice.velocity_smoother.remaining_samples, 88);
}

#[test]
fn note_is_held_in_the_attack_only() {
    let mut voice = Voice::<F>::default();
    assert_eq!(voice.note(), None);
    trigger_voice(&mut voice, A4_NOTE, 1.0, 0.0);
    for _ in 0..600 {
        plain(&mut voice);
        assert_eq!(voice.note(), Some(A4_NOTE));
        assert_eq!(voice.env.state, EnvState::Attack);
    }
    voice.note_off(F(100.0), F(SR));
    assert_eq!(voice.note(), None);
    assert_eq!(voice.env.state, EnvState::Release);
}

#[test]
fn age_is_zero_once_idle() {
    let mut voice = make_active_voice(7, 60);
    for _ in 0..500 {
        plain(&mut voice);
    }
    assert_eq!(voice.age(), 7);
    voice.note_off(F(10.0), F(SR));
    assert_eq!(voice.age(), 7);
    while !voice.is_idle() {
        plain(&mut voice);
    }
    assert_eq!(voice.age(), 0);

    // Straight to idle: the note ends before its first sample.
    let mut voice = make_active_voice(8, 60);
    voice.note_off(F(10.0), F(SR));
    assert!(voice.is_idle());
    assert_eq!(voice.age(), 0);
}

#[test]
fn idle_voice_stays_as_it_is() {
    let mut voice = Voice::<F>::default();
    voice.set_pan(F(1.0), F(SR));
    let remaining = voice.pan_left_smoother.remaining_samples;
    assert_eq!(plain(&mut voice), (0.0, 0.0));
    assert_eq!(voice.pan_left_smoother.remaining_samples, remaining);
    assert_eq!(voice.osc.phase, F(0.0));
}

#[test]
fn note_from_silence_starts_anew() {
    let mut used = Voice::<F>::default();
    trigger_voice(&mut used, 50, 0.3, 0.4);
    for _ in 0..777 {
        plain(&mut used);
    }
    used.note_off(F(20.0), F(SR));
    while !used.is_idle() {
        plain(&mut used);
    }
    let mut fresh = Voice::<F>::default();
    trigger_voice(&mut used, A4_NOTE, 0.9, 0.1);
    trigger_voice(&mut fresh, A4_NOTE, 0.9, 0.1);
    for _ in 0..300 {
        assert_eq!(plain(&mut used), plain(&mut fresh));
    }
}

#[test]
fn zero_depth_leaves_the_filter_alone() {
    let mut voice = make_active_voice(1, 60);
    for depth in [0.0, -0.5, f32::NAN] {
        for _ in 0..20 {
            render(&mut voice, 0.0, 0.5, depth, 300.0, 0.9, SR);
        }
        assert_eq!((voice.svf.ic1eq, voice.svf.ic2eq), (F(0.0), F(0.0)));
    }
}

#[test]
fn fine_tune_reaches_the_oscillator() {
    let mut voice = make_active_voice(1, A4_NOTE);
    render(&mut voice, 1200.0, 0.0, LPG_OFF.0, LPG_OFF.1, LPG_OFF.2, SR);
    assert_eq!(voice.osc.phase_increment, F(voice.base_freq.0 * 2.0 / SR));
}

#[test]
fn oldest_takes_the_first_of_equals() {
    let voices = [
        make_active_voice(3, 60),
        make_active_voice(2, 62),
        make_active_voice(2, 62),
        make_releasing_voice(1, 64),
    ];
    assert_eq!(find_oldest(&voices, 4, VoiceFilter::Playing(62)), Some(1));
    assert_eq!(find_oldest(&voices, 4, VoiceFilter::Releasing), Some(3));
    assert_eq!(find_oldest(&voices, 4, VoiceFilter::Any), Some(3));
    assert_eq!(find_oldest(&voices, 3, VoiceFilter::Releasing), None);
    assert_eq!(find_oldest(&voices, 4, VoiceFilter::Playing(64)), None);
    assert_eq!(find_oldest(&voices, 0, VoiceFilter::Any), None);
}

#[test]
fn allocation_prefers_a_newer_releasing_voice_to_an_older_held_one() {
    let voices = [make_active_voice(1, 60), make_releasing_voice(9, 62)];
    assert_eq!(allocate_voice(&voices, 2), 1);
}

#[test]
fn note_from_silence_starts_anew_after_pan_and_filter() {
    // Another filter state, and pan ramps that have run out.
    let mut used = Voice::<F>::default();
    trigger_voice(&mut used, 50, 0.3, 0.4);
    used.set_pan(F(-0.7), F(SR));
    for _ in 0..300 {
        render(&mut used, 0.0, 0.5, 1.0, 900.0, 0.8, SR);
    }
    used.set_pan(F(0.25), F(SR));
    for _ in 0..300 {
        render(&mut used, 0.0, 0.5, 1.0, 900.0, 0.8, SR);
    }
    used.note_off(F(20.0), F(SR));
    while !used.is_idle() {
        plain(&mut used);
    }
    let mut other = Voice::<F>::default();
    trigger_voice(&mut other, 40, 0.9, 0.0);
    other.set_pan(F(0.25), F(SR));
    for _ in 0..200 {
        plain(&mut other);
    }
    other.note_off(F(5.0), F(SR));
    while !other.is_idle() {
        plain(&mut other);
    }
    assert_ne!(used.svf.ic1eq, other.svf.ic1eq);
    trigger_voice(&mut used, A4_NOTE, 0.9, 0.1);
    trigger_voice(&mut other, A4_NOTE, 0.9, 0.1);
    for _ in 0..300 {
        assert_eq!(plain(&mut used), plain(&mut other));
    }
}

#[test]
fn reset_voice_answers_as_fresh() {
    let mut used = Voice::<F>::default();
    trigger_voice(&mut used, 50, 0.3, 0.4);
    used.set_pan(F(-0.7), F(SR));
    for _ in 0..30 {
        render(&mut used, 5.0, 0.5, 1.0, 900.0, 0.8, SR);
    }
    used.reset();
    let mut fresh = Voice::<F>::default();
    for voice in [&mut used, &mut fresh] {
        voice.set_pan(F(0.5), F(SR));
        trigger_voice(voice, A4_NOTE, 0.9, 0.1);
    }
    for _ in 0..100 {
        assert_eq!(
            render(&mut used, 3.0, 0.2, 0.7, 800.0, 0.4, SR),
            render(&mut fresh, 3.0, 0.2, 0.7, 800.0, 0.4, SR)
        );
    }
    for voice in [&mut used, &mut fresh] {
        voice.note_off(F(30.0), F(SR));
    }
    for _ in 0..2000 {
        assert_eq!(
            render(&mut used, 3.0, 0.2, 0.7, 800.0, 0.4, SR),
            render(&mut fresh, 3.0, 0.2, 0.7, 800.0, 0.4, SR)
        );
    }
}

#[test]
fn zero_depth_hears_neither_cutoff_nor_resonance() {
    let mut a = make_active_voice(1, 60);
    let mut b = make_active_voice(1, 60);
    for i in 0..200 {
        assert_eq!(
            render(&mut a, 0.0, 0.4, 0.0, 500.0, 0.9, SR),
            render(&mut b, 0.0, 0.4, 0.0, 20.0 + i as f32, 0.1, SR)
        );
    }
    assert_eq!(a.osc.phase, b.osc.phase);
    assert_eq!(a.env.level, b.env.level);
    assert_eq!((a.svf.ic1eq, a.svf.ic2eq), (b.svf.ic1eq, b.svf.ic2eq));
}
