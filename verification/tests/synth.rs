//! The synthesizer as a whole, and its parameters.

use sine_one::dsp::envelope::EnvState;
use sine_one::dsp::smoother::LinearSmoother;
use sine_one::dsp::voice::{MAX_VOICES, PAN_RAMP_SECS};
use sine_one::params::{FloatParam, FloatRange, SineOneParams};
use sine_one::plugin::{voice_gain, NoteEvent, SampleControls, SineOne, GAIN_RAMP_SECS};
use sine_one::scalar::Scalar;

/// Single-precision numbers.
#[derive(Clone, Copy, Debug, PartialEq)]
struct F(f32);

impl Scalar for F {
    fn from_bits(bits: u32) -> Self {
        F(f32::from_bits(bits))
    }
    fn from_usize(count: usize) -> Self {
        F(count as f32)
    }
    fn to_u32(self) -> u32 {
        self.0 as u32
    }
    fn plus(self, other: Self) -> Self {
        F(self.0 + other.0)
    }
    fn minus(self, other: Self) -> Self {
        F(self.0 - other.0)
    }
    fn times(self, other: Self) -> Self {
        F(self.0 * other.0)
    }
    fn over(self, other: Self) -> Self {
        F(self.0 / other.0)
    }
    fn remainder(self, other: Self) -> Self {
        F(self.0 % other.0)
    }
    fn negated(self) -> Self {
        F(-self.0)
    }
    fn magnitude(self) -> Self {
        F(self.0.abs())
    }
    fn lesser(self, other: Self) -> Self {
        F(self.0.min(other.0))
    }
    fn greater(self, other: Self) -> Self {
        F(self.0.max(other.0))
    }
    fn square_root(self) -> Self {
        F(self.0.sqrt())
    }
    fn sine(self) -> Self {
        F(self.0.sin())
    }
    fn cosine(self) -> Self {
        F(self.0.cos())
    }
    fn tangent(self) -> Self {
        F(self.0.tan())
    }
    fn exponential(self) -> Self {
        F(self.0.exp())
    }
    fn logarithm(self) -> Self {
        F(self.0.ln())
    }
    fn power(self, exponent: Self) -> Self {
        F(self.0.powf(exponent.0))
    }
    fn is_below(self, other: Self) -> bool {
        self.0 < other.0
    }
    fn is_above(self, other: Self) -> bool {
        self.0 > other.0
    }
    fn is_at_most(self, other: Self) -> bool {
        self.0 <= other.0
    }
    fn is_at_least(self, other: Self) -> bool {
        self.0 >= other.0
    }
    fn differs_from(self, other: Self) -> bool {
        self.0 != other.0
    }
}

/// Frequency in Hz of a MIDI note, with A4 at 440.
fn midi_note_to_freq(note: u8) -> f32 {
    2.0_f32.powf((note as f32 - 69.0) / 12.0) * 440.0
}

/// The linear gain of a level in dB.
fn db_to_gain(db: f32) -> f32 {
    10.0_f32.powf(db * 0.05)
}

/// Helper: call initialize() then reset() on a plugin instance, as a host does
/// (default, initialize, reset, process).
fn initialize_plugin(mut plugin: SineOne<F>, sample_rate: f32) -> SineOne<F> {
    let result = plugin.initialize(F(sample_rate));
    assert!(result, "initialize() should return true");
    plugin.reset();
    plugin
}

/// The parameters as they stand, for one sample.
fn controls_of(params: &SineOneParams<F>) -> SampleControls<F> {
    SampleControls {
        fine_tune_cents: params.fine_tune.value,
        fold: params.fold.value,
        lpg_depth: params.lpg.value,
        lpg_cutoff_hz: params.lpg_cutoff.value,
        lpg_resonance: params.lpg_resonance.value,
    }
}

/// Helper: call `process()` on the plugin with a stereo buffer of the given
/// size and the provided events. Returns the left and right channel data.
fn run_process(
    plugin: &mut SineOne<F>,
    num_samples: usize,
    events: Vec<NoteEvent<F>>,
) -> (Vec<f32>, Vec<f32>) {
    let mut left = vec![F(0.0); num_samples];
    let mut right = vec![F(0.0); num_samples];
    let controls = vec![controls_of(&plugin.params); num_samples];
    let output_gain = F(db_to_gain(plugin.params.output_gain.value.0));
    plugin.process(&events, &controls, output_gain, &mut left, &mut right);
    (
        left.iter().map(|s| s.0).collect(),
        right.iter().map(|s| s.0).collect(),
    )
}

/// Shorthand for a key that goes down.
fn note_on(timing: u32, note: u8, velocity: f32) -> NoteEvent<F> {
    NoteEvent::NoteOn {
        timing,
        note,
        velocity: F(velocity),
        base_freq: F(midi_note_to_freq(note)),
    }
}

/// Shorthand for a key that goes up.
fn note_off(timing: u32, note: u8) -> NoteEvent<F> {
    NoteEvent::NoteOff { timing, note }
}

/// Shorthand for a pan.
fn poly_pan(timing: u32, note: u8, pan: f32) -> NoteEvent<F> {
    NoteEvent::PolyPan {
        timing,
        note,
        pan: F(pan),
    }
}

#[test]
fn plugin_can_be_constructed() {
    let plugin = SineOne::<F>::default();
    let _params = &plugin.params;
}

/// Helper: construct a default plugin and call initialize().
fn init_plugin(sample_rate: f32) -> SineOne<F> {
    initialize_plugin(SineOne::default(), sample_rate)
}

/// Helper: construct a plugin with a custom voice count and call initialize().
fn init_plugin_with_voices(sample_rate: f32, voice_count: i32) -> SineOne<F> {
    let plugin = SineOne {
        params: SineOneParams::with_voices(voice_count),
        ..SineOne::default()
    };
    initialize_plugin(plugin, sample_rate)
}

/// Helper: construct a plugin with a custom start_phase and call initialize().
fn init_plugin_with_start_phase(sample_rate: f32, degrees: f32) -> SineOne<F> {
    let plugin = SineOne {
        params: SineOneParams::with_start_phase(F(degrees)),
        ..SineOne::default()
    };
    initialize_plugin(plugin, sample_rate)
}

/// Helper: construct a plugin with a custom output gain (dB) and call initialize().
fn init_plugin_with_output_gain(sample_rate: f32, db: f32) -> SineOne<F> {
    let plugin = SineOne {
        params: SineOneParams::with_output_gain(F(db)),
        ..SineOne::default()
    };
    initialize_plugin(plugin, sample_rate)
}

/// Compute root-mean-square of a sample buffer.
fn rms(samples: &[f32]) -> f32 {
    let sum: f32 = samples.iter().map(|s| s * s).sum();
    (sum / samples.len() as f32).sqrt()
}

/// Number of samples to skip in pan assertions to allow the ~2ms pan
/// ramp to complete. Derived from `PAN_RAMP_SECS` at 44100 Hz + margin.
const PAN_RAMP_MARGIN: usize = (f32::from_bits(PAN_RAMP_SECS) * 44100.0) as usize + 12;

#[test]
fn initialize_stores_sample_rate() {
    let plugin = init_plugin(48000.0);
    assert_eq!(plugin.sample_rate.0, 48000.0);
}

#[test]
fn initialize_returns_true_at_common_rates() {
    // Verify initialize succeeds at standard sample rates.
    for &sr in &[44100.0, 48000.0, 88200.0, 96000.0, 192000.0] {
        let _ = init_plugin(sr);
    }
}

#[test]
fn reset_zeros_all_voices() {
    let mut plugin = init_plugin(44100.0);

    // Trigger a note to dirty voice state, then reset.
    let events = vec![note_on(0, 69, 1.0)];
    run_process(&mut plugin, 100, events);

    plugin.reset();

    // After reset, all voices should be idle and produce silence.
    for (i, voice) in plugin.voices.iter().enumerate() {
        assert!(voice.is_idle(), "voice {i} should be idle after reset");
    }
    let (left, right) = run_process(&mut plugin, 64, vec![]);
    assert!(
        left.iter().all(|&s| s == 0.0),
        "should produce silence after reset"
    );
    assert!(
        right.iter().all(|&s| s == 0.0),
        "should produce silence after reset"
    );
}

#[test]
fn silence_before_note_on() {
    let mut plugin = init_plugin(44100.0);

    // Process 512 samples with no MIDI events — output must be all zeros.
    let (left, right) = run_process(&mut plugin, 512, vec![]);

    assert!(
        left.iter().all(|&s| s == 0.0),
        "left channel should be silent before any NoteOn"
    );
    assert!(
        right.iter().all(|&s| s == 0.0),
        "right channel should be silent before any NoteOn"
    );
}

#[test]
fn note_on_produces_nonzero_output() {
    let mut plugin = init_plugin(44100.0);

    // Send NoteOn at sample 0: A4 (note 69), velocity ~0.79 (100/127).
    let events = vec![note_on(0, 69, 100.0 / 127.0)];
    let (left, _right) = run_process(&mut plugin, 512, events);

    // At least some samples should be nonzero after the NoteOn triggers
    // the oscillator and envelope.
    let nonzero_count = left.iter().filter(|&&s| s != 0.0).count();
    assert!(
        nonzero_count > 0,
        "expected nonzero output after NoteOn, but all 512 samples were zero"
    );
}

#[test]
fn note_off_eventually_silences() {
    let mut plugin = init_plugin(44100.0);

    // NoteOn at sample 0.
    let events = vec![note_on(0, 69, 1.0)];
    // Process enough samples to complete the attack phase (default 10 ms = 441 samples).
    run_process(&mut plugin, 512, events);

    // NoteOff at sample 0 of the next buffer.
    let events = vec![note_off(0, 69)];
    // Default release is 300 ms at 44100 Hz = 13230 samples. Process well beyond that.
    let release_samples = (300.0 * 44100.0 / 1000.0) as usize; // 13230
    let margin = 1000; // generous safety margin past release end
    let total_samples = release_samples + margin + 2000;
    let (left, _right) = run_process(&mut plugin, total_samples, events);

    // The last samples should be zero (envelope has reached Idle).
    let tail = &left[release_samples + margin..];
    assert!(
        tail.iter().all(|&s| s == 0.0),
        "expected silence after release completes, but found nonzero samples in tail"
    );
}

#[test]
fn center_pan_both_channels_equal() {
    let mut plugin = init_plugin(44100.0);

    // With default center pan (0.0), both channels should be equal.
    let events = vec![note_on(0, 69, 1.0)];
    let (left, right) = run_process(&mut plugin, 256, events);

    assert_eq!(
        left, right,
        "left and right channels should be equal at center pan"
    );
}

#[test]
fn poly_pan_hard_left_silences_right() {
    let mut plugin = init_plugin(44100.0);

    let events = vec![
        note_on(0, 69, 1.0),
        poly_pan(0, 69, -1.0),
    ];
    let (left, right) = run_process(&mut plugin, 256, events);

    // Left channel should have nonzero output.
    assert!(
        left.iter().any(|&s| s != 0.0),
        "left channel should have nonzero output at hard-left pan"
    );
    // Right channel should be silent after the pan ramp settles.
    assert!(
        right[PAN_RAMP_MARGIN..].iter().all(|&s| s.abs() < 1e-6),
        "right channel should be silent at hard-left pan (after ramp)"
    );
}

#[test]
fn poly_pan_hard_right_silences_left() {
    let mut plugin = init_plugin(44100.0);

    let events = vec![
        note_on(0, 69, 1.0),
        poly_pan(0, 69, 1.0),
    ];
    let (left, right) = run_process(&mut plugin, 256, events);

    // Right channel should have nonzero output.
    assert!(
        right.iter().any(|&s| s != 0.0),
        "right channel should have nonzero output at hard-right pan"
    );
    // Left channel should be silent after the pan ramp settles.
    assert!(
        left[PAN_RAMP_MARGIN..].iter().all(|&s| s.abs() < 1e-6),
        "left channel should be silent at hard-right pan (after ramp)"
    );
}

#[test]
fn poly_pan_mid_buffer_timing() {
    let mut plugin = init_plugin(44100.0);
    let mid = 128u32;

    let events = vec![
        note_on(0, 69, 1.0),
        poly_pan(mid, 69, 1.0),
    ];
    let (left, right) = run_process(&mut plugin, 256, events);

    // Before the PolyPan (samples 0..128), center pan → L == R.
    // Skip sample 0 because the envelope starts from zero.
    for i in 1..mid as usize {
        assert!(
            (left[i] - right[i]).abs() < 1e-6,
            "before PolyPan at sample {i}: left {} != right {}",
            left[i],
            right[i]
        );
    }

    // After the PolyPan and pan ramp settles, hard-right → left should be ~0.
    let pan_settled = mid as usize + PAN_RAMP_MARGIN;
    for i in pan_settled..256 {
        assert!(
            left[i].abs() < 1e-6,
            "after hard-right pan at sample {i}: left {} should be ~0",
            left[i]
        );
    }
}

#[test]
fn reset_clears_pan() {
    let mut plugin = init_plugin(44100.0);

    // Set a non-default pan via PolyPan event, then reset.
    let events = vec![
        note_on(0, 69, 1.0),
        poly_pan(0, 69, 0.5),
    ];
    run_process(&mut plugin, 64, events);
    plugin.reset();

    // After reset, pan should be centered — verify by checking equal L/R output.
    let events = vec![note_on(0, 69, 1.0)];
    let (left, right) = run_process(&mut plugin, 64, events);
    assert_eq!(left, right, "after reset, pan should be centered (L == R)");
}

#[test]
fn poly_pan_persists_across_notes() {
    let mut plugin = init_plugin(44100.0);

    // Set pan first, then start a note — pan should persist.
    let events = vec![
        poly_pan(0, 69, 1.0),
        note_on(0, 69, 1.0),
    ];
    let (left, right) = run_process(&mut plugin, 256, events);

    // Hard-right pan should persist: left silent (after ramp), right nonzero.
    assert!(
        right.iter().any(|&s| s != 0.0),
        "right channel should have output when pan persists"
    );
    assert!(
        left[PAN_RAMP_MARGIN..].iter().all(|&s| s.abs() < 1e-6),
        "left channel should be silent when pan is hard-right (after ramp)"
    );
}

#[test]
fn note_on_resets_phase_to_zero() {
    let mut plugin = init_plugin(44100.0);

    // First NoteOn: capture first 64 samples of output.
    let events = vec![note_on(0, 69, 1.0)];
    let (first_left, _) = run_process(&mut plugin, 64, events);

    // Advance 200 samples to move the oscillator phase forward.
    run_process(&mut plugin, 200, vec![]);

    // NoteOff and let release complete.
    let events = vec![note_off(0, 69)];
    run_process(&mut plugin, 20000, events);

    // Second NoteOn: capture first 64 samples.
    let events = vec![note_on(0, 69, 1.0)];
    let (second_left, _) = run_process(&mut plugin, 64, events);

    // Both NoteOns should produce identical output (deterministic phase).
    assert_eq!(
        first_left, second_left,
        "two NoteOns should produce identical output when phase is retriggered"
    );
}

#[test]
fn note_on_with_90_degree_start_phase() {
    let mut plugin_0 = init_plugin(44100.0);
    let mut plugin_90 = init_plugin_with_start_phase(44100.0, 90.0);

    let events = || {
        vec![note_on(0, 69, 1.0)]
    };

    let (left_0, _) = run_process(&mut plugin_0, 64, events());
    let (left_90, _) = run_process(&mut plugin_90, 64, events());

    // The outputs should differ because the oscillator starts at different phases.
    assert_ne!(
        left_0, left_90,
        "0° and 90° start phase should produce different output"
    );
}

#[test]
fn retrigger_continues_phase() {
    let mut plugin = init_plugin(44100.0);

    // First NoteOn — let oscillator run for 200 samples.
    let events = vec![note_on(0, 69, 1.0)];
    let (pre_left, _) = run_process(&mut plugin, 200, events);

    // Capture last sample before retrigger.
    let last_before = pre_left[199];

    // Second NoteOn (retrigger, no NoteOff). Phase should continue,
    // not reset — avoiding a waveform discontinuity (click).
    let events = vec![note_on(0, 69, 1.0)];
    let (retrigger_left, _) = run_process(&mut plugin, 32, events);

    // The transition should be smooth: the difference between the last
    // sample before retrigger and the first sample after should be
    // bounded by the maximum single-sample delta of a 440 Hz sine at
    // 44100 Hz (≈ 2π * 440 / 44100 ≈ 0.063), plus some envelope margin.
    let delta = (retrigger_left[0] - last_before).abs();
    assert!(
        delta < 0.15,
        "retrigger should be smooth (phase continues), but delta was {delta}"
    );
}

#[test]
fn retrigger_from_idle_resets_phase() {
    let mut plugin = init_plugin(44100.0);

    // First NoteOn: capture first 64 samples.
    let events = vec![note_on(0, 69, 1.0)];
    let (first_left, _) = run_process(&mut plugin, 64, events);

    // Advance, NoteOff, and wait for full release (envelope → Idle).
    run_process(&mut plugin, 200, vec![]);
    let events = vec![note_off(0, 69)];
    run_process(&mut plugin, 20000, events);

    // Second NoteOn from idle: phase should be reset, producing
    // identical output to the first NoteOn.
    let events = vec![note_on(0, 69, 1.0)];
    let (second_left, _) = run_process(&mut plugin, 64, events);

    assert_eq!(
        first_left, second_left,
        "NoteOn from idle should reset phase and produce identical output"
    );
}

#[test]
fn retrigger_velocity_change_is_smooth() {
    let mut plugin = init_plugin(44100.0);

    // NoteOn at full velocity, process enough for attack to complete.
    let events = vec![note_on(0, 69, 1.0)];
    let (pre_left, _) = run_process(&mut plugin, 500, events);
    let last_before = pre_left[499];

    // Retrigger at very low velocity — big gain change.
    let events = vec![note_on(0, 69, 0.2)];
    let (retrigger_left, _) = run_process(&mut plugin, 256, events);

    // The first sample after retrigger should not jump by more than
    // the natural oscillator delta + a small margin. Without smoothing,
    // the gain would drop by 0.8× instantly.
    let delta = (retrigger_left[0] - last_before).abs();
    assert!(
        delta < 0.15,
        "velocity change should be smooth, but first-sample delta was {delta}"
    );
}

#[test]
fn retrigger_with_nonzero_start_phase_is_smooth() {
    let mut plugin = init_plugin_with_start_phase(44100.0, 90.0);

    // First NoteOn: process enough for attack to complete.
    let events = vec![note_on(0, 69, 1.0)];
    let (pre_left, _) = run_process(&mut plugin, 500, events);
    let last_before = pre_left[499];

    // Second NoteOn (retrigger). Even at 90° start phase, retrigger
    // should continue the oscillator phase (no reset) to prevent
    // uncontrolled clicks while the envelope is at a non-zero level.
    let events = vec![note_on(0, 69, 1.0)];
    let (retrigger_left, _) = run_process(&mut plugin, 32, events);

    // The first sample after retrigger should be continuous with the
    // waveform before retrigger (no sudden jump to sin(90°) = 1.0).
    let diff = (retrigger_left[0] - last_before).abs();
    assert!(
        diff < 0.1,
        "retrigger should be smooth (phase continues), but jump was {diff}"
    );
}

// --- Polyphonic tests ---

#[test]
fn two_notes_produce_two_voices() {
    let mut plugin = init_plugin_with_voices(44100.0, 4);

    // Play two different notes simultaneously.
    let events = vec![
        note_on(0, 60, 1.0),
        note_on(0, 64, 1.0),
    ];
    run_process(&mut plugin, 256, events);

    // Two voices should be active.
    let active = plugin.voices.iter().filter(|v| !v.is_idle()).count();
    assert_eq!(active, 2, "two notes should activate two voices");
}

#[test]
fn voice_stealing_when_full() {
    let mut plugin = init_plugin_with_voices(44100.0, 2);

    // Fill both voice slots.
    let events = vec![
        note_on(0, 60, 1.0),
        note_on(0, 64, 1.0),
    ];
    run_process(&mut plugin, 100, events);

    // Third note should steal the oldest voice.
    let events = vec![note_on(0, 67, 1.0)];
    run_process(&mut plugin, 100, events);

    // Note 67 should be playing. The stolen voice (note 60, oldest) was
    // replaced, so only notes 64 and 67 should be active.
    let active_notes: Vec<u8> = plugin.voices.iter().filter_map(|v| v.note()).collect();
    assert!(
        active_notes.contains(&67),
        "stolen voice should now play note 67, active: {active_notes:?}"
    );
    assert!(
        !active_notes.contains(&60),
        "oldest note (60) should have been stolen, active: {active_notes:?}"
    );
}

#[test]
fn note_off_releases_correct_voice() {
    let mut plugin = init_plugin_with_voices(44100.0, 4);

    // Play two notes.
    let events = vec![
        note_on(0, 60, 1.0),
        note_on(0, 64, 1.0),
    ];
    run_process(&mut plugin, 256, events);

    // Release only note 60.
    let events = vec![note_off(0, 60)];
    run_process(&mut plugin, 64, events);

    // Note 64 should still be playing (not releasing).
    let still_holding: Vec<u8> = plugin.voices.iter().filter_map(|v| v.note()).collect();
    assert!(
        still_holding.contains(&64),
        "note 64 should still be held, active: {still_holding:?}"
    );
    assert!(
        !still_holding.contains(&60),
        "note 60 should have been released, active: {still_holding:?}"
    );
}

#[test]
fn gain_compensation_scales_output() {
    // With 1/sqrt(N) gain compensation, a single note at voices=4
    // should be sqrt(4)=2x quieter than at voices=1.
    let mut plugin_1 = init_plugin_with_voices(44100.0, 1);
    let mut plugin_4 = init_plugin_with_voices(44100.0, 4);

    let events = || {
        vec![note_on(0, 69, 1.0)]
    };

    let (left_1, _) = run_process(&mut plugin_1, 512, events());
    let (left_4, _) = run_process(&mut plugin_4, 512, events());

    let rms_1 = rms(&left_1);
    let rms_4 = rms(&left_4);
    let ratio = rms_1 / rms_4;

    // 1/sqrt(4) = 0.5, so ratio should be ~2.0.
    assert!(
        (ratio - 2.0).abs() < 0.3,
        "gain compensation should make voices=4 about 2x quieter (1/sqrt(N)), ratio was {ratio}"
    );
}

#[test]
fn polyphonic_output_is_sum_of_voices() {
    let mut plugin = init_plugin_with_voices(44100.0, 4);

    // Play two notes simultaneously. The output should be nonzero and
    // differ from playing just one note.
    let events = vec![
        note_on(0, 60, 1.0),
        note_on(0, 67, 1.0),
    ];
    let (left_two, _) = run_process(&mut plugin, 512, events);

    // Compare with a fresh plugin playing just one note.
    let mut plugin_one = init_plugin_with_voices(44100.0, 4);
    let events = vec![note_on(0, 60, 1.0)];
    let (left_one, _) = run_process(&mut plugin_one, 512, events);

    // The two-note output should differ from the one-note output.
    assert_ne!(
        left_two, left_one,
        "two simultaneous notes should produce different output than one"
    );
}

// --- PolyPan routing tests ---

#[test]
fn poly_pan_routes_to_correct_voice() {
    let mut plugin = init_plugin_with_voices(44100.0, 4);

    // Play one note and pan it hard-right via PolyPan targeting that note.
    // A second note has no PolyPan, so it stays at center.
    let events = vec![
        note_on(0, 60, 1.0),
        note_on(0, 64, 1.0),
        // Pan note 64 hard-right; note 60 stays at center.
        poly_pan(0, 64, 1.0),
    ];
    run_process(&mut plugin, 256, events);

    // Verify that the voice playing note 64 has pan 1.0, and the voice
    // playing note 60 is still at center (0.0).
    let voice_60 = plugin.voices.iter().find(|v| v.note() == Some(60));
    let voice_64 = plugin.voices.iter().find(|v| v.note() == Some(64));

    assert!(voice_60.is_some(), "voice playing note 60 should exist");
    assert!(voice_64.is_some(), "voice playing note 64 should exist");

    assert!(
        (voice_60.unwrap().pan().0 - 0.0).abs() < 1e-6,
        "note 60 should have center pan, got {}",
        voice_60.unwrap().pan().0
    );
    assert!(
        (voice_64.unwrap().pan().0 - 1.0).abs() < 1e-6,
        "note 64 should have hard-right pan, got {}",
        voice_64.unwrap().pan().0
    );
}

#[test]
fn poly_pan_no_voice_is_ignored() {
    let mut plugin = init_plugin_with_voices(44100.0, 4);

    // Send PolyPan for a note that isn't playing — should not panic.
    let events = vec![poly_pan(0, 72, 1.0)];
    run_process(&mut plugin, 64, events);
    // No panic = pass.
}

#[test]
fn poly_pan_mono_mode_unchanged() {
    let mut plugin = init_plugin_with_voices(44100.0, 1);

    // In mono mode, PolyPan should still work regardless of note matching.
    let events = vec![
        poly_pan(0, 99, 1.0),
        note_on(0, 69, 1.0),
    ];
    let (left, right) = run_process(&mut plugin, 256, events);

    // Hard-right pan: left should be ~0 (after ramp), right should have energy.
    assert!(
        right.iter().any(|&s| s != 0.0),
        "right channel should have output at hard-right pan in mono mode"
    );
    assert!(
        left[PAN_RAMP_MARGIN..].iter().all(|&s| s.abs() < 1e-6),
        "left channel should be silent at hard-right pan in mono mode (after ramp)"
    );
}

#[test]
fn output_gain_attenuates_output() {
    // At -6 dB, output amplitude should be roughly half of 0 dB.
    let mut plugin_0db = init_plugin_with_output_gain(44100.0, 0.0);
    let mut plugin_minus6 = init_plugin_with_output_gain(44100.0, -6.0);

    let events = || {
        vec![note_on(0, 69, 1.0)]
    };

    let (left_0, _) = run_process(&mut plugin_0db, 512, events());
    let (left_6, _) = run_process(&mut plugin_minus6, 512, events());

    let ratio = rms(&left_0) / rms(&left_6);

    // -6 dB ≈ 0.501 linear gain, so ratio should be ~2.0.
    assert!(
        (ratio - 2.0).abs() < 0.3,
        "output at -6 dB should be ~half of 0 dB, ratio was {ratio}"
    );
}

#[test]
fn output_gain_amplifies_output() {
    // At +6 dB, output amplitude should be roughly double 0 dB.
    let mut plugin_0db = init_plugin_with_output_gain(44100.0, 0.0);
    let mut plugin_plus6 = init_plugin_with_output_gain(44100.0, 6.0);

    let events = || {
        vec![note_on(0, 69, 1.0)]
    };

    let (left_0, _) = run_process(&mut plugin_0db, 512, events());
    let (left_6, _) = run_process(&mut plugin_plus6, 512, events());

    let ratio = rms(&left_6) / rms(&left_0);

    // +6 dB ≈ 1.995 linear gain, so ratio should be ~2.0.
    assert!(
        (ratio - 2.0).abs() < 0.3,
        "output at +6 dB should be ~double 0 dB, ratio was {ratio}"
    );
}

#[test]
fn voice_count_reduction_releases_excess_voices() {
    let mut plugin = init_plugin_with_voices(44100.0, 4);

    // Play 4 notes — one per voice slot.
    let events = vec![
        note_on(0, 60, 1.0),
        note_on(0, 64, 1.0),
        note_on(0, 67, 1.0),
        note_on(0, 72, 1.0),
    ];
    run_process(&mut plugin, 256, events);

    // All 4 voices should be active.
    for (i, voice) in plugin.voices[..4].iter().enumerate() {
        assert!(
            !voice.is_idle(),
            "voice {i} should be active before reduction"
        );
    }

    // Reduce voice count from 4 to 2 by swapping in new params.
    // This replaces all parameters; only the voice count is checked here.
    plugin.params = SineOneParams::with_voices(2);

    // Process another block — the reduction path should release voices 2 and 3.
    run_process(&mut plugin, 256, vec![]);

    // Voices beyond the new count should be releasing (or idle if release completed).
    for i in 2..4 {
        assert!(
            plugin.voices[i].is_releasing() || plugin.voices[i].is_idle(),
            "voice {i} should be releasing or idle after voice count reduction"
        );
    }
}

#[test]
fn note_off_for_unplayed_note_is_noop() {
    let mut plugin = init_plugin(44100.0);

    // Play a note.
    run_process(&mut plugin, 256, vec![note_on(0, 69, 1.0)]);

    // Send NoteOff for a note that was never played.
    let (left_after, _) = run_process(&mut plugin, 256, vec![note_off(0, 42)]);

    // The active voice (note 69) should still be producing output.
    assert!(
        left_after.iter().any(|&s| s != 0.0),
        "NoteOff for unplayed note should not silence active voices"
    );
}

/// Verify each param's default value is within its declared min/max.
/// Catches common copy-paste errors in FloatRange definitions.
#[test]
fn param_defaults_in_range() {
    let params = SineOneParams::<F>::default();

    // Fine Tune: range −100..+100 cents, default 0.0
    let fine_tune_val = params.fine_tune.value.0;
    assert!(
        (-100.0..=100.0).contains(&fine_tune_val),
        "fine_tune default {fine_tune_val} out of range"
    );
    assert_eq!(fine_tune_val, 0.0, "fine_tune default should be 0.0 cents");

    // Attack: range 1..5000 ms, default 10.0
    let attack_val = params.attack.value.0;
    assert!(
        (1.0..=5000.0).contains(&attack_val),
        "attack default {attack_val} out of range"
    );
    assert_eq!(attack_val, 10.0, "attack default should be 10.0 ms");

    // Release: range 1..10000 ms, default 300.0
    let release_val = params.release.value.0;
    assert!(
        (1.0..=10000.0).contains(&release_val),
        "release default {release_val} out of range"
    );
    assert_eq!(release_val, 300.0, "release default should be 300.0 ms");

    // Start Phase: range 0..360 degrees, default 0.0
    let sp_val = params.start_phase.value.0;
    assert!(
        (0.0..=360.0).contains(&sp_val),
        "start_phase default {sp_val} out of range"
    );
    assert_eq!(sp_val, 0.0, "start_phase default should be 0.0 degrees");

    // Voices: range 1..8, default 1
    let voices_val = params.voices.value;
    assert!(
        (1..=8).contains(&voices_val),
        "voices default {voices_val} out of range"
    );
    assert_eq!(voices_val, 1, "voices default should be 1");

    // Fold: range 0..1, default 0.0
    let fold_val = params.fold.value.0;
    assert!(
        (0.0..=1.0).contains(&fold_val),
        "fold default {fold_val} out of range"
    );
    assert_eq!(fold_val, 0.0, "fold default should be 0.0");

    // Output Gain: range -24..+12 dB, default 0.0
    let og_val = params.output_gain.value.0;
    assert!(
        (-24.0..=12.0).contains(&og_val),
        "output_gain default {og_val} out of range"
    );
    assert_eq!(og_val, 0.0, "output_gain default should be 0.0 dB");

    // LPG: range 0..1, default 0.0
    let lpg_val = params.lpg.value.0;
    assert!(
        (0.0..=1.0).contains(&lpg_val),
        "lpg default {lpg_val} out of range"
    );
    assert_eq!(lpg_val, 0.0, "lpg default should be 0.0");

    // LPG Cutoff: range 20..20000 Hz, default 20000.0
    let lc_val = params.lpg_cutoff.value.0;
    assert!(
        (20.0..=20000.0).contains(&lc_val),
        "lpg_cutoff default {lc_val} out of range"
    );
    assert_eq!(lc_val, 20000.0, "lpg_cutoff default should be 20000.0 Hz");

    // LPG Resonance: range 0..1, default 0.0
    let lr_val = params.lpg_resonance.value.0;
    assert!(
        (0.0..=1.0).contains(&lr_val),
        "lpg_resonance default {lr_val} out of range"
    );
    assert_eq!(lr_val, 0.0, "lpg_resonance default should be 0.0");
}

// --- own cases ---

#[test]
fn gain_ramp_lasts_five_milliseconds() {
    assert_eq!(f32::from_bits(GAIN_RAMP_SECS), 0.005);
}

#[test]
fn voice_gain_is_exact() {
    for n in 1..=8usize {
        assert_eq!(voice_gain::<F>(n), F(1.0 / (n as f32).sqrt()));
    }
}

#[test]
fn parameters_are_described() {
    let params = SineOneParams::<F>::default();
    let cases: [(&FloatParam<F>, &str, &str, f32, Option<F>, bool); 9] = [
        (&params.fine_tune, "Fine Tune", " ct", 1.0, Some(F(20.0)), false),
        (&params.attack, "Attack", " ms", 0.1, None, false),
        (&params.release, "Release", " ms", 0.1, None, false),
        (&params.start_phase, "Start Phase", " °", 1.0, None, false),
        (&params.fold, "Fold", " %", 0.01, Some(F(20.0)), true),
        (&params.lpg, "LPG", " %", 0.01, Some(F(20.0)), true),
        (&params.lpg_cutoff, "LPG Cutoff", " Hz", 1.0, Some(F(20.0)), false),
        (&params.lpg_resonance, "LPG Resonance", " %", 0.01, Some(F(20.0)), true),
        (&params.output_gain, "Output Gain", " dB", 0.1, None, false),
    ];
    for (param, name, unit, step, smoothing, percentage) in cases {
        assert_eq!(param.name, name);
        assert_eq!(param.unit, unit);
        assert_eq!(param.step_size, F(step));
        assert_eq!(param.smoothing_ms, smoothing);
        assert_eq!(param.is_percentage, percentage);
        assert_eq!(param.default_value, param.value);
    }
    assert_eq!(params.voices.name, "Voices");
    assert_eq!((params.voices.min, params.voices.max), (1, 8));
}

#[test]
fn ranges_are_exact() {
    let params = SineOneParams::<F>::default();
    let linear = [
        (params.fine_tune.range, -100.0, 100.0),
        (params.start_phase.range, 0.0, 360.0),
        (params.fold.range, 0.0, 1.0),
        (params.lpg.range, 0.0, 1.0),
        (params.lpg_resonance.range, 0.0, 1.0),
        (params.output_gain.range, -24.0, 12.0),
    ];
    for (range, lo, hi) in linear {
        match range {
            FloatRange::Linear { min, max } => assert_eq!((min, max), (F(lo), F(hi))),
            FloatRange::Skewed { .. } => panic!("expected an even range from {lo} to {hi}"),
        }
    }
    let skewed = [
        (params.attack.range, 1.0, 5000.0),
        (params.release.range, 1.0, 10000.0),
        (params.lpg_cutoff.range, 20.0, 20000.0),
    ];
    for (range, lo, hi) in skewed {
        match range {
            FloatRange::Skewed { min, max, skew } => {
                assert_eq!((min, max, skew), (F(lo), F(hi), F(-2.0)))
            }
            FloatRange::Linear { .. } => panic!("expected a skewed range from {lo} to {hi}"),
        }
    }
}

#[test]
fn builders_change_one_parameter() {
    let lpg = SineOneParams::with_lpg(F(0.7));
    assert_eq!((lpg.lpg.value, lpg.lpg.default_value), (F(0.7), F(0.7)));
    assert_eq!(lpg.lpg_cutoff.value, F(20000.0));
    let cutoff = SineOneParams::with_lpg_cutoff(F(500.0));
    assert_eq!(cutoff.lpg_cutoff.value, F(500.0));
    assert_eq!(cutoff.lpg.value, F(0.0));
    let resonance = SineOneParams::with_lpg_resonance(F(0.4));
    assert_eq!(resonance.lpg_resonance.value, F(0.4));
    let phase = SineOneParams::with_start_phase(F(90.0));
    assert_eq!((phase.start_phase.value, phase.voices.value), (F(90.0), 1));
    let gain = SineOneParams::with_output_gain(F(-6.0));
    assert_eq!((gain.output_gain.value, gain.attack.value), (F(-6.0), F(10.0)));
    assert_eq!(SineOneParams::<F>::with_voices(5).voices.value, 5);
}

#[test]
fn fresh_synth_has_no_rate_and_one_voice() {
    let plugin = SineOne::<F>::default();
    assert_eq!(plugin.sample_rate, F(0.0));
    assert_eq!(plugin.previous_voice_count, 1);
    assert_eq!(plugin.next_voice_age, 0);
    assert_eq!(plugin.gain_smoother.current, F(0.0));
    assert!(plugin.voices.iter().all(|v| v.is_idle() && v.age() == 0));
}

#[test]
fn initialize_syncs_gain_and_count() {
    let plugin = init_plugin_with_voices(44100.0, 4);
    assert_eq!(plugin.gain_smoother.current, F(0.5));
    assert_eq!(plugin.gain_smoother.remaining_samples, 0);
    assert_eq!(plugin.previous_voice_count, 4);
}

#[test]
fn events_wait_for_their_sample() {
    let mut plugin = init_plugin_with_start_phase(44100.0, 90.0);
    let (left, _) = run_process(&mut plugin, 64, vec![note_on(40, 69, 1.0)]);
    assert!(left[..40].iter().all(|&s| s == 0.0));
    assert!(left[40] != 0.0);
}

#[test]
fn overdue_event_holds_up_the_rest() {
    let mut plugin = init_plugin_with_voices(44100.0, 4);
    // The second event is due before the first: neither it nor the third plays.
    let events = vec![note_on(10, 60, 1.0), note_on(5, 64, 1.0), note_on(20, 67, 1.0)];
    run_process(&mut plugin, 64, events);
    let held: Vec<u8> = plugin.voices.iter().filter_map(|v| v.note()).collect();
    assert_eq!(held, vec![60]);
}

#[test]
fn events_beyond_the_block_are_not_played() {
    let mut plugin = init_plugin_with_voices(44100.0, 4);
    run_process(&mut plugin, 64, vec![note_on(64, 60, 1.0)]);
    assert!(plugin.voices.iter().all(|v| v.is_idle()));
}

#[test]
fn other_events_are_skipped() {
    let mut plugin = init_plugin_with_voices(44100.0, 4);
    let events = vec![NoteEvent::Other { timing: 3 }, note_on(3, 60, 1.0)];
    run_process(&mut plugin, 64, events);
    assert_eq!(plugin.voices[0].note(), Some(60));
}

#[test]
fn timing_is_that_of_the_event() {
    assert_eq!(note_on(1, 60, 1.0).timing(), 1);
    assert_eq!(note_off(2, 60).timing(), 2);
    assert_eq!(poly_pan(3, 60, 0.0).timing(), 3);
    assert_eq!(NoteEvent::<F>::Other { timing: 4 }.timing(), 4);
}

#[test]
fn new_notes_are_newest() {
    let mut plugin = init_plugin_with_voices(44100.0, 3);
    let notes = [60, 62, 64, 65, 67];
    let events = notes.iter().map(|&n| note_on(0, n, 1.0)).collect();
    run_process(&mut plugin, 8, events);
    let ages: Vec<u64> = plugin.voices.iter().map(|v| v.age()).collect();
    assert_eq!(ages, vec![4, 5, 3, 0, 0, 0, 0, 0]);
    assert_eq!(plugin.next_voice_age, 5);
}

#[test]
fn mono_takes_the_first_voice_always() {
    let mut plugin = init_plugin(44100.0);
    for note in [60, 64, 67] {
        run_process(&mut plugin, 32, vec![note_on(0, note, 1.0)]);
        let held: Vec<u8> = plugin.voices.iter().filter_map(|v| v.note()).collect();
        assert_eq!(held, vec![note]);
        assert_eq!(plugin.voices[0].note(), Some(note));
    }
}

#[test]
fn note_off_ends_the_oldest_of_two() {
    let mut plugin = init_plugin_with_voices(44100.0, 2);
    let events = vec![note_on(0, 60, 1.0), note_on(0, 60, 1.0)];
    run_process(&mut plugin, 200, events);
    run_process(&mut plugin, 1, vec![note_off(0, 60)]);
    assert_eq!(plugin.voices[0].env.state, EnvState::Release);
    assert_eq!(plugin.voices[1].env.state, EnvState::Attack);
    run_process(&mut plugin, 1, vec![note_off(0, 60)]);
    assert_eq!(plugin.voices[1].env.state, EnvState::Release);
}

#[test]
fn pan_moves_the_first_voice_with_the_note() {
    let mut plugin = init_plugin_with_voices(44100.0, 4);
    let events = vec![
        note_on(0, 60, 1.0),
        note_on(0, 64, 1.0),
        note_on(0, 64, 1.0),
        poly_pan(0, 64, -0.5),
    ];
    run_process(&mut plugin, 8, events);
    let pans: Vec<F> = plugin.voices.iter().take(3).map(|v| v.pan()).collect();
    assert_eq!(pans, vec![F(0.0), F(-0.5), F(0.0)]);
}

#[test]
fn voice_count_is_held_to_its_bounds() {
    for (asked, held) in [(0, 1), (1, 1), (8, 8), (100, 8), (-1, 8)] {
        let mut plugin = init_plugin(44100.0);
        plugin.params = SineOneParams::with_voices(asked);
        run_process(&mut plugin, 1, vec![]);
        assert_eq!(plugin.previous_voice_count, held, "asked for {asked}");
    }
}

#[test]
fn growing_keeps_the_voices() {
    let mut plugin = init_plugin(44100.0);
    run_process(&mut plugin, 100, vec![note_on(0, 60, 1.0)]);
    plugin.params = SineOneParams::with_voices(4);
    run_process(&mut plugin, 100, vec![note_on(0, 64, 1.0)]);
    assert_eq!(plugin.voices[0].note(), Some(60));
    assert_eq!(plugin.voices[1].note(), Some(64));
}

#[test]
fn shrinking_ends_notes_beyond_the_count() {
    let mut plugin = init_plugin_with_voices(44100.0, 4);
    let events = (0..4).map(|i| note_on(0, 60 + i, 1.0)).collect();
    run_process(&mut plugin, 600, events);
    plugin.resize(2);
    let states: Vec<EnvState> = plugin.voices.iter().take(5).map(|v| v.env.state).collect();
    assert_eq!(
        states,
        vec![
            EnvState::Attack,
            EnvState::Attack,
            EnvState::Release,
            EnvState::Release,
            EnvState::Idle
        ]
    );
    assert_eq!(plugin.gain_smoother.target, voice_gain::<F>(2));
    assert_eq!(plugin.gain_smoother.current, F(0.5));
    assert_eq!(plugin.gain_smoother.remaining_samples, 220);
}

#[test]
fn resizing_to_the_same_count_changes_nothing() {
    let mut plugin = init_plugin_with_voices(44100.0, 4);
    plugin.resize(4);
    assert_eq!(plugin.gain_smoother.remaining_samples, 0);
    assert_eq!(plugin.gain_smoother.current, F(0.5));
}

#[test]
fn output_is_the_scaled_sum() {
    let mut plugin = init_plugin_with_voices(44100.0, 4);
    plugin.handle_event(note_on(0, 60, 0.8), 4);
    plugin.handle_event(note_on(0, 67, 0.6), 4);
    let mut twin = init_plugin_with_voices(44100.0, 4);
    twin.handle_event(note_on(0, 60, 0.8), 4);
    twin.handle_event(note_on(0, 67, 0.6), 4);
    let c = controls_of(&plugin.params);
    for _ in 0..64 {
        let (left, right) = plugin.render_sample(c, F(0.25));
        let mut sums = (0.0_f32, 0.0_f32);
        for voice in twin.voices.iter_mut().take(2) {
            let (l, r) = voice.render_sample(
                c.fine_tune_cents,
                c.fold,
                c.lpg_depth,
                c.lpg_cutoff_hz,
                c.lpg_resonance,
                F(44100.0),
            );
            sums = (sums.0 + l.0, sums.1 + r.0);
        }
        let scale = 0.5 * 0.25;
        assert_eq!((left.0, right.0), (sums.0 * scale, sums.1 * scale));
    }
}

#[test]
fn gate_controls_reach_the_voices() {
    let mut open = init_plugin(44100.0);
    let mut gated = initialize_plugin(
        SineOne {
            params: SineOneParams::with_lpg(F(1.0)),
            ..SineOne::default()
        },
        44100.0,
    );
    let (dry, _) = run_process(&mut open, 256, vec![note_on(0, 69, 1.0)]);
    let (wet, _) = run_process(&mut gated, 256, vec![note_on(0, 69, 1.0)]);
    assert_ne!(dry, wet);
}

#[test]
fn start_phase_of_a_full_circle_is_none() {
    let mut plain = init_plugin(44100.0);
    let mut full = init_plugin_with_start_phase(44100.0, 360.0);
    let (a, _) = run_process(&mut plain, 64, vec![note_on(0, 69, 1.0)]);
    let (b, _) = run_process(&mut full, 64, vec![note_on(0, 69, 1.0)]);
    assert_eq!(a, b);
}

#[test]
fn silence_with_pans_and_note_offs() {
    let mut plugin = init_plugin_with_voices(44100.0, 4);
    let events = vec![poly_pan(0, 60, 1.0), note_off(3, 60), NoteEvent::Other { timing: 9 }];
    let (left, right) = run_process(&mut plugin, 64, events);
    assert!(left.iter().chain(right.iter()).all(|&s| s == 0.0));
    assert!(plugin.voices.iter().all(|v| v.is_idle()));
}

#[test]
fn reset_synth_plays_as_fresh() {
    let mut used = init_plugin_with_voices(44100.0, 3);
    let events = vec![
        note_on(0, 50, 0.3),
        note_on(10, 57, 0.9),
        poly_pan(20, 57, 0.7),
        note_off(100, 50),
    ];
    run_process(&mut used, 1000, events);
    used.reset();
    let mut fresh = init_plugin_with_voices(44100.0, 3);
    let events = || vec![note_on(0, 60, 1.0), note_on(64, 64, 0.5), note_off(200, 60)];
    let first = run_process(&mut used, 512, events());
    let second = run_process(&mut fresh, 512, events());
    assert_eq!(first, second);
}

#[test]
fn reset_keeps_rate_and_parameters() {
    let mut plugin = init_plugin_with_voices(48000.0, 3);
    run_process(&mut plugin, 64, vec![note_on(0, 60, 1.0)]);
    plugin.reset();
    assert_eq!(plugin.sample_rate, F(48000.0));
    assert_eq!(plugin.params.voices.value, 3);
    assert_eq!(plugin.next_voice_age, 0);
    assert_eq!(plugin.previous_voice_count, 3);
    let gain: &LinearSmoother<F> = &plugin.gain_smoother;
    assert_eq!(gain.current, voice_gain::<F>(3));
    assert_eq!(plugin.voices.len(), MAX_VOICES);
}

#[test]
fn later_events_have_no_earlier_effect() {
    let first = vec![note_on(0, 60, 1.0), poly_pan(30, 60, 0.5)];
    let mut more = first.clone();
    more.extend([note_on(100, 67, 0.8), note_off(100, 60), poly_pan(140, 67, -1.0)]);
    let mut plain = init_plugin_with_voices(44100.0, 4);
    let mut busy = init_plugin_with_voices(44100.0, 4);
    let (left, right) = run_process(&mut plain, 256, first);
    let (left2, right2) = run_process(&mut busy, 200, more);
    assert_eq!(left[..100], left2[..100]);
    assert_eq!(right[..100], right2[..100]);
    assert_ne!(left[100..200], left2[100..]);
}

#[test]
fn ignored_events_are_not_heard() {
    let kept = vec![note_on(0, 60, 1.0), note_on(20, 64, 0.5), note_off(150, 60)];
    let mut with = kept.clone();
    with.insert(3, note_off(160, 60));
    with.insert(2, poly_pan(70, 61, 1.0));
    with.insert(1, note_off(20, 64));
    let mut a = init_plugin_with_voices(44100.0, 3);
    let mut b = init_plugin_with_voices(44100.0, 3);
    assert_eq!(
        run_process(&mut a, 256, with),
        run_process(&mut b, 256, kept)
    );
    for (v, w) in a.voices.iter().zip(b.voices.iter()) {
        assert_eq!((v.note(), v.age(), v.pan()), (w.note(), w.age(), w.pan()));
        assert_eq!(v.env.state, w.env.state);
    }
}

#[test]
fn reset_synth_plays_blocks_as_fresh() {
    let mut used = init_plugin_with_voices(44100.0, 3);
    run_process(&mut used, 700, vec![note_on(0, 50, 0.3), poly_pan(20, 50, 0.7)]);
    used.reset();
    let mut fresh = init_plugin_with_voices(44100.0, 3);
    for (i, count) in [3, 2, 8, 1].iter().enumerate() {
        let events = || vec![note_on(0, 60 + i as u8, 1.0), note_off(90, 60)];
        used.params = SineOneParams::with_voices(*count);
        fresh.params = SineOneParams::with_voices(*count);
        assert_eq!(
            run_process(&mut used, 128, events()),
            run_process(&mut fresh, 128, events())
        );
    }
}

#[test]
fn gain_is_in_force_from_the_first_sample() {
    let mut four = init_plugin_with_voices(44100.0, 4);
    let mut one = init_plugin(44100.0);
    four.params.start_phase.value = F(90.0);
    one.params.start_phase.value = F(90.0);
    four.params.attack.value = F(1.0);
    one.params.attack.value = F(1.0);
    let (quiet, _) = run_process(&mut four, 1, vec![note_on(0, 69, 1.0)]);
    let (loud, _) = run_process(&mut one, 1, vec![note_on(0, 69, 1.0)]);
    assert!(loud[0] != 0.0);
    assert_eq!(quiet[0], loud[0] * 0.5);
}

#[test]
fn silence_is_zero_while_the_gain_moves() {
    let mut plugin = init_plugin_with_voices(44100.0, 4);
    plugin.params.voices.value = 8;
    plugin.params.output_gain.value = F(12.0);
    let (left, right) = run_process(&mut plugin, 400, vec![]);
    assert!(left.iter().chain(right.iter()).all(|&s| s == 0.0));
    assert_eq!(plugin.previous_voice_count, 8);
}
