//! One voice of the synthesizer, and the choice of a voice for a new note.

use vstd::prelude::*;

use crate::dsp::envelope::{
    decay_coefficient, law_envelope_is_repeatable, law_release_is_repeatable, ArEnvelope, EnvState,
};
use crate::dsp::oscillator::{
    apply_detune, detuned, law_oscillation_is_repeatable, SineOscillator,
};
use crate::dsp::pan::{apply_constant_power_pan, pan_angle, panned};
use crate::dsp::smoother::{
    law_retargeting_is_repeatable, law_smoothing_is_repeatable, LinearSmoother,
};
use crate::dsp::svf::{
    compute_lpg_cutoff, gate_cutoff, law_filtering_is_repeatable, quality, resonance_to_q,
    SvfFilter,
};
use crate::dsp::wavefold::{is_folded, law_folding_is_repeatable, wavefold};
use crate::formula::{evaluates, law_formula_has_one_value, lit, val, Formula};
use crate::scalar::{clamp, repeatable, Scalar, ONE, TAU, ZERO};

verus! {

/// Maximum number of simultaneous voices.
pub const MAX_VOICES: usize = 8;

/// Duration of the velocity ramp on a retrigger: 0.002 seconds, too short to be
/// heard and long enough to avoid a click. The binary32 encoding of the number.
pub const VELOCITY_RAMP_SECS: u32 = 0x3b03_126f;

/// Attack times shorter than this let the transient of the start phase through:
/// 10 milliseconds. At this time none of it is left. The binary32 encoding of
/// the number.
pub const TRANSIENT_GATE_MS: u32 = 0x4120_0000;

/// Attack time at which the transient gate is fully open: 1 millisecond, the
/// shortest attack. The binary32 encoding of the number.
pub const MIN_ATTACK_MS: u32 = 0x3f80_0000;

/// Duration of the ramp of the pan gains: 0.002 seconds. The binary32 encoding
/// of the number.
pub const PAN_RAMP_SECS: u32 = 0x3b03_126f;

/// What a note needs to begin on a voice.
#[derive(Clone, Copy)]
pub struct NoteOnParams<N> {
    pub note: u8,
    pub velocity: N,
    pub base_freq: N,
    /// Start phase in [0.0, 1.0).
    pub start_phase_normalized: N,
    pub sample_rate: N,
    pub attack_ms: N,
    /// Voice age counter, for the choice of the voice to steal.
    pub age: u64,
}

/// `n` is the length in samples of a ramp of so many seconds, cut to a whole.
pub open spec fn ramp_length<N: Scalar>(seconds: u32, sample_rate: N, n: u32) -> bool {
    exists|length: N| #[trigger]
        call_ensures(N::to_u32, (length,), n) && evaluates(
            lit(seconds).times(val(sample_rate)),
            length,
        )
}

/// The length in samples of a ramp of so many seconds (by their binary32
/// encoding).
pub fn ramp_samples<N: Scalar>(seconds: u32, sample_rate: N) -> (n: u32)
    ensures
        ramp_length(seconds, sample_rate, n),
{
    proof {
        reveal_with_fuel(evaluates, 3);
    }
    N::from_bits(seconds).times(sample_rate).to_u32()
}

/// The gains of the center position.
fn center_pan_gains<N: Scalar>() -> (gains: (N, N))
    ensures
        is_center(gains),
{
    apply_constant_power_pan(N::from_bits(ONE), N::from_bits(ZERO))
}

/// `gains` are what panning a full signal to the center gives.
pub open spec fn is_center<N: Scalar>(gains: (N, N)) -> bool {
    exists|full: N, center: N| #[trigger]
        panned(full, center, gains) && evaluates(lit(ONE), full) && evaluates(lit(ZERO), center)
}

/// The level at which a note from silence begins: the waveform at the start
/// phase, `|sin(start * 2 pi)|`, times a gate that falls linearly from 1 at the
/// shortest attack to 0 at the closing time.
pub open spec fn transient_level<N>(params: NoteOnParams<N>) -> Formula<N> {
    let amplitude = val(params.start_phase_normalized).times(lit(TAU)).sine().magnitude();
    let gate = lit(TRANSIENT_GATE_MS).minus(val(params.attack_ms)).over(
        lit(TRANSIENT_GATE_MS).minus(lit(MIN_ATTACK_MS)),
    ).clamp(lit(ZERO), lit(ONE));
    amplitude.times(gate)
}

/// `out` and `post` are what the lowpass gate makes of `input`: the filter at the
/// cutoff that the envelope sets where the depth is above 0, else the input
/// itself and the filter untouched.
pub open spec fn gated<N: Scalar>(
    pre: SvfFilter<N>,
    post: SvfFilter<N>,
    input: N,
    env_level: N,
    lpg_depth: N,
    lpg_cutoff_hz: N,
    lpg_resonance: N,
    sample_rate: N,
    out: N,
) -> bool {
    exists|zero: N, active: bool|
        {
            &&& #[trigger] call_ensures(N::is_above, (lpg_depth, zero), active)
            &&& evaluates(lit(ZERO), zero)
            &&& if active {
                exists|fc: N, q: N|
                    {
                        &&& #[trigger] pre.processed(post, input, fc, q, sample_rate, out)
                        &&& evaluates(gate_cutoff(env_level, lpg_depth, lpg_cutoff_hz), fc)
                        &&& evaluates(quality(lpg_resonance), q)
                    }
            } else {
                post == pre && out == input
            }
        }
}

/// The signals along one voice during one sample.
pub struct SignalChain<N> {
    /// Frequency after the fine-tune.
    pub freq: N,
    /// The oscillator, tuned to it.
    pub osc: SineOscillator<N>,
    pub osc_sample: N,
    pub folded: N,
    pub env_level: N,
    pub filtered: N,
    pub velocity: N,
    pub pan_left: N,
    pub pan_right: N,
}

/// The state of one voice: oscillator, envelope, filter, velocity, pan and the
/// note that it plays. A voice is a monophonic signal path of its own.
pub struct Voice<N> {
    pub osc: SineOscillator<N>,
    pub env: ArEnvelope<N>,
    pub svf: SvfFilter<N>,
    pub velocity_smoother: LinearSmoother<N>,
    /// The MIDI note that is held on this voice, or `None`.
    pub note: Option<u8>,
    /// Base frequency in Hz of the current note, before the fine-tune.
    pub base_freq: N,
    /// Pan position in [-1.0, 1.0].
    pub pan: N,
    /// Left pan gain, smoothed against clicks.
    pub pan_left_smoother: LinearSmoother<N>,
    /// Right pan gain, smoothed against clicks.
    pub pan_right_smoother: LinearSmoother<N>,
    /// Counter value of the note that sounds; lower is older. Zero when idle.
    pub age: u64,
}

impl<N: Scalar> Voice<N> {
    /// The voice is silent, centered and plays nothing. The tuning of the
    /// oscillator is left open: it is set anew for every sample.
    pub open spec fn is_cleared(self) -> bool {
        &&& evaluates(lit(ZERO), self.osc.phase)
        &&& self.env.is_cleared()
        &&& self.svf.is_zeroed()
        &&& self.velocity_smoother.is_zeroed()
        &&& self.note == None::<u8>
        &&& evaluates(lit(ZERO), self.base_freq)
        &&& evaluates(lit(ZERO), self.pan)
        &&& exists|gains: (N, N)| #[trigger]
            is_center(gains) && self.pan_left_smoother.rests_at(gains.0)
                && self.pan_right_smoother.rests_at(gains.1)
        &&& self.age == 0
    }

    /// A voice holds a note exactly while its envelope is in the attack.
    pub open spec fn holds_note_in_attack(self) -> bool {
        self.note is Some <==> self.env.state == EnvState::Attack
    }

    /// A voice that is idle has no age.
    pub open spec fn is_ageless_when_idle(self) -> bool {
        self.env.state == EnvState::Idle ==> self.age == 0
    }

    /// The pan gains go to those of the position, and stand there once no ramp is
    /// left.
    pub open spec fn pan_gains_follow(self) -> bool {
        &&& exists|full: N, position: N|
            {
                &&& #[trigger] panned(
                    full,
                    position,
                    (self.pan_left_smoother.target, self.pan_right_smoother.target),
                )
                &&& evaluates(lit(ONE), full)
                &&& position == self.pan || (evaluates(lit(ZERO), position) && evaluates(
                    lit(ZERO),
                    self.pan,
                ))
            }
        &&& self.pan_left_smoother.remaining_samples == 0 ==> self.pan_left_smoother.current
            == self.pan_left_smoother.target
        &&& self.pan_right_smoother.remaining_samples == 0 ==> self.pan_right_smoother.current
            == self.pan_right_smoother.target
    }

    /// No pan ramp is in progress.
    pub open spec fn pan_is_at_rest(self) -> bool {
        &&& self.pan_left_smoother.remaining_samples == 0
        &&& self.pan_right_smoother.remaining_samples == 0
    }

    /// `post` is this voice sent to a pan position: both gains ramp to those of
    /// the position.
    pub open spec fn panned_to(self, post: Self, pan: N, sample_rate: N) -> bool {
        &&& post == (Voice {
            pan,
            pan_left_smoother: post.pan_left_smoother,
            pan_right_smoother: post.pan_right_smoother,
            ..self
        })
        &&& exists|full: N, gains: (N, N), n: u32|
            {
                &&& #[trigger] panned(full, pan, gains)
                &&& evaluates(lit(ONE), full)
                &&& #[trigger] ramp_length(PAN_RAMP_SECS, sample_rate, n)
                &&& self.pan_left_smoother.retargeted(post.pan_left_smoother, gains.0, n)
                &&& self.pan_right_smoother.retargeted(post.pan_right_smoother, gains.1, n)
            }
    }

    /// `initial` is the level at which the envelope begins a note: the transient
    /// of the start phase for a note from silence whose start phase is not 0,
    /// else the level where it stands.
    pub open spec fn begins_at(self, params: NoteOnParams<N>, initial: N) -> bool {
        if self.env.state == EnvState::Idle {
            exists|zero: N, offset: bool|
                {
                    &&& #[trigger] call_ensures(
                        N::differs_from,
                        (params.start_phase_normalized, zero),
                        offset,
                    )
                    &&& evaluates(lit(ZERO), zero)
                    &&& if offset {
                        evaluates(transient_level(params), initial)
                    } else {
                        initial == self.env.level
                    }
                }
        } else {
            initial == self.env.level
        }
    }

    /// `post` is this voice with a note begun on it. From silence the phase
    /// moves to the start phase and the velocity jumps; on a retrigger the phase
    /// continues and the velocity ramps. Filter and pan stay.
    pub open spec fn begun(self, post: Self, params: NoteOnParams<N>) -> bool {
        &&& post == (Voice {
            osc: post.osc,
            env: post.env,
            velocity_smoother: post.velocity_smoother,
            note: Some(params.note),
            base_freq: params.base_freq,
            age: params.age,
            ..self
        })
        &&& if self.env.state == EnvState::Idle {
            &&& post.osc == (SineOscillator { phase: params.start_phase_normalized, ..self.osc })
            &&& post.velocity_smoother.rests_at(params.velocity)
        } else {
            &&& post.osc == self.osc
            &&& exists|n: u32|
                {
                    &&& #[trigger] ramp_length(VELOCITY_RAMP_SECS, params.sample_rate, n)
                    &&& self.velocity_smoother.retargeted(
                        post.velocity_smoother,
                        params.velocity,
                        n,
                    )
                }
        }
        &&& evaluates(
            decay_coefficient(params.attack_ms, params.sample_rate),
            post.env.attack_coeff,
        )
        &&& exists|initial: N|
            {
                &&& #[trigger] self.begins_at(params, initial)
                &&& (ArEnvelope { attack_coeff: post.env.attack_coeff, ..self.env }).triggered(
                    post.env,
                    initial,
                )
            }
    }

    /// The age of this voice once its envelope is in a state: 0 when idle.
    pub open spec fn age_in(self, state: EnvState) -> u64 {
        if state == EnvState::Idle {
            0
        } else {
            self.age
        }
    }

    /// `post` is this voice with its note ended: the envelope takes the release
    /// time and is released, and no note is held. All else stays, but an idle
    /// voice has no age.
    pub open spec fn ended(self, post: Self, release_ms: N, sample_rate: N) -> bool {
        &&& post == (Voice {
            env: post.env,
            note: None,
            age: self.age_in(post.env.state),
            ..self
        })
        &&& evaluates(decay_coefficient(release_ms, sample_rate), post.env.release_coeff)
        &&& (ArEnvelope { release_coeff: post.env.release_coeff, ..self.env }).released(post.env)
    }

    /// `chain` lists the signals of the sample that leads from this voice to
    /// `post` and to `out`: oscillator, wavefolder, gate, then envelope times
    /// velocity, then pan. Note, frequency and pan position stay, and so does the
    /// age unless the voice falls silent.
    pub open spec fn sounds(
        self,
        post: Self,
        fine_tune_cents: N,
        fold: N,
        lpg_depth: N,
        lpg_cutoff_hz: N,
        lpg_resonance: N,
        sample_rate: N,
        chain: SignalChain<N>,
        out: (N, N),
    ) -> bool {
        let mono = val(chain.filtered).times(val(chain.env_level)).times(val(chain.velocity));
        &&& post == (Voice {
            osc: post.osc,
            env: post.env,
            svf: post.svf,
            velocity_smoother: post.velocity_smoother,
            pan_left_smoother: post.pan_left_smoother,
            pan_right_smoother: post.pan_right_smoother,
            age: self.age_in(post.env.state),
            ..self
        })
        &&& evaluates(detuned(self.base_freq, fine_tune_cents), chain.freq)
        &&& self.osc.tuned(chain.osc, chain.freq, sample_rate)
        &&& chain.osc.advanced(post.osc, chain.osc_sample)
        &&& is_folded(chain.osc_sample, fold, chain.folded)
        &&& self.env.advanced(post.env, chain.env_level)
        &&& gated(
            self.svf,
            post.svf,
            chain.folded,
            chain.env_level,
            lpg_depth,
            lpg_cutoff_hz,
            lpg_resonance,
            sample_rate,
            chain.filtered,
        )
        &&& self.velocity_smoother.advanced(post.velocity_smoother, chain.velocity)
        &&& self.pan_left_smoother.advanced(post.pan_left_smoother, chain.pan_left)
        &&& self.pan_right_smoother.advanced(post.pan_right_smoother, chain.pan_right)
        &&& evaluates(mono.times(val(chain.pan_left)), out.0)
        &&& evaluates(mono.times(val(chain.pan_right)), out.1)
    }

    /// `post` is this voice one sample later, having handed out `out`. An idle
    /// voice does nothing and hands out silence.
    pub open spec fn rendered(
        self,
        post: Self,
        fine_tune_cents: N,
        fold: N,
        lpg_depth: N,
        lpg_cutoff_hz: N,
        lpg_resonance: N,
        sample_rate: N,
        out: (N, N),
    ) -> bool {
        if self.env.state == EnvState::Idle {
            post == self && evaluates(lit(ZERO), out.0) && evaluates(lit(ZERO), out.1)
        } else {
            exists|chain: SignalChain<N>| #[trigger]
                self.sounds(
                    post,
                    fine_tune_cents,
                    fold,
                    lpg_depth,
                    lpg_cutoff_hz,
                    lpg_resonance,
                    sample_rate,
                    chain,
                    out,
                )
        }
    }

    /// Returns the MIDI note that is held on this voice, or `None`.
    pub fn note(&self) -> (note: Option<u8>)
        ensures
            note == self.note,
    {
        self.note
    }

    /// Returns the voice age counter. Higher values are newer.
    pub fn age(&self) -> (age: u64)
        ensures
            age == self.age,
    {
        self.age
    }

    /// Returns the current pan position.
    pub fn pan(&self) -> (pan: N)
        ensures
            pan == self.pan,
    {
        self.pan
    }

    /// Set the pan position. The gains ramp, so that a change does not click
    /// while the voice sounds.
    pub fn set_pan(&mut self, pan: N, sample_rate: N)
        ensures
            old(self).panned_to(*final(self), pan, sample_rate),
    {
        self.pan = pan;
        let (left, right) = apply_constant_power_pan(N::from_bits(ONE), pan);
        let n: u32 = ramp_samples(PAN_RAMP_SECS, sample_rate);
        self.pan_left_smoother.set_target(left, n);
        self.pan_right_smoother.set_target(right, n);
    }

    /// Returns `true` when the voice is silent.
    pub fn is_idle(&self) -> (idle: bool)
        ensures
            idle == (self.env.state == EnvState::Idle),
    {
        self.env.is_idle()
    }

    /// Returns `true` when the voice is fading out.
    pub fn is_releasing(&self) -> (releasing: bool)
        ensures
            releasing == (self.env.state == EnvState::Release),
    {
        self.env.is_releasing()
    }

    /// Begin a note on this voice.
    ///
    /// - From silence with a start phase and a short attack: the phase starts
    ///   there, the velocity jumps, and the envelope begins at a level that lets
    ///   the intended transient through.
    /// - From silence at 0 degrees or with a long attack: the envelope begins at
    ///   zero.
    /// - Retrigger: the phase continues and the velocity ramps, so that nothing
    ///   clicks while the envelope is open.
    pub fn note_on(&mut self, params: NoteOnParams<N>)
        ensures
            old(self).begun(*final(self), params),
    {
        let was_idle = self.env.is_idle();
        self.note = Some(params.note);
        self.base_freq = params.base_freq;
        self.age = params.age;

        if was_idle {
            self.osc.set_phase(params.start_phase_normalized);
            self.velocity_smoother.set_immediate(params.velocity);
        } else {
            let n: u32 = ramp_samples(VELOCITY_RAMP_SECS, params.sample_rate);
            self.velocity_smoother.set_target(params.velocity, n);
        }

        self.env.set_attack(params.attack_ms, params.sample_rate);

        if was_idle && params.start_phase_normalized.differs_from(N::from_bits(ZERO)) {
            let initial_level = transient(params);
            assert(old(self).begins_at(params, initial_level));
            self.env.note_on_at_level(initial_level);
        } else {
            assert(old(self).begins_at(params, old(self).env.level));
            self.env.note_on();
        }
    }

    /// End the note of this voice: release its envelope.
    pub fn note_off(&mut self, release_ms: N, sample_rate: N)
        ensures
            old(self).ended(*final(self), release_ms, sample_rate),
    {
        self.env.set_release(release_ms, sample_rate);
        self.env.note_off();
        self.note = None;
        if self.env.is_idle() {
            self.age = 0;
        }
    }

    /// Generate one stereo sample from this voice: `(left, right)`.
    pub fn render_sample(
        &mut self,
        fine_tune_cents: N,
        fold: N,
        lpg_depth: N,
        lpg_cutoff_hz: N,
        lpg_resonance: N,
        sample_rate: N,
    ) -> (out: (N, N))
        ensures
            old(self).rendered(
                *final(self),
                fine_tune_cents,
                fold,
                lpg_depth,
                lpg_cutoff_hz,
                lpg_resonance,
                sample_rate,
                out,
            ),
    {
        proof {
            reveal_with_fuel(evaluates, 5);
        }
        if self.env.is_idle() {
            return (N::from_bits(ZERO), N::from_bits(ZERO));
        }
        let freq = apply_detune(self.base_freq, fine_tune_cents);
        self.osc.set_frequency(freq, sample_rate);
        let ghost osc = self.osc;

        let osc_sample = self.osc.next_sample();
        let folded = wavefold(osc_sample, fold);

        // The level serves the cutoff and the amplitude alike.
        let env_level = self.env.next_sample();
        if self.env.is_idle() {
            self.age = 0;
        }

        let filtered = if lpg_depth.is_above(N::from_bits(ZERO)) {
            let fc = compute_lpg_cutoff(env_level, lpg_depth, lpg_cutoff_hz);
            let q = resonance_to_q(lpg_resonance);
            self.svf.process(folded, fc, q, sample_rate)
        } else {
            folded
        };

        let velocity = self.velocity_smoother.next_sample();
        let mono_output = filtered.times(env_level).times(velocity);

        let pan_left = self.pan_left_smoother.next_sample();
        let pan_right = self.pan_right_smoother.next_sample();
        let out = (mono_output.times(pan_left), mono_output.times(pan_right));
        proof {
            let chain = SignalChain {
                freq,
                osc,
                osc_sample,
                folded,
                env_level,
                filtered,
                velocity,
                pan_left,
                pan_right,
            };
            assert(old(self).sounds(
                *self,
                fine_tune_cents,
                fold,
                lpg_depth,
                lpg_cutoff_hz,
                lpg_resonance,
                sample_rate,
                chain,
                out,
            ));
        }
        out
    }

    /// Return to silence: no note, center pan, age 0.
    pub fn reset(&mut self)
        ensures
            final(self).is_cleared(),
            final(self).osc.phase_increment == old(self).osc.phase_increment,
    {
        self.osc.reset();
        self.env.reset();
        self.svf.reset();
        self.velocity_smoother.reset();
        self.note = None;
        self.base_freq = N::from_bits(ZERO);
        self.pan = N::from_bits(ZERO);
        let gains = center_pan_gains::<N>();
        self.pan_left_smoother.set_immediate(gains.0);
        self.pan_right_smoother.set_immediate(gains.1);
        self.age = 0;
    }
}

/// The level at which a note from silence with a start phase begins.
fn transient<N: Scalar>(params: NoteOnParams<N>) -> (level: N)
    ensures
        evaluates(transient_level(params), level),
{
    proof {
        reveal_with_fuel(evaluates, 7);
    }
    let amplitude = params.start_phase_normalized.times(N::from_bits(TAU)).sine().magnitude();
    let opening = N::from_bits(TRANSIENT_GATE_MS).minus(params.attack_ms).over(
        N::from_bits(TRANSIENT_GATE_MS).minus(N::from_bits(MIN_ATTACK_MS)),
    );
    let gate = clamp(opening, N::from_bits(ZERO), N::from_bits(ONE));
    amplitude.times(gate)
}

impl<N: Scalar> Default for Voice<N> {
    fn default() -> (voice: Self)
        ensures
            voice.is_cleared(),
            voice.osc.is_zeroed(),
    {
        let gains = center_pan_gains::<N>();
        let mut pan_left_smoother = LinearSmoother::default();
        pan_left_smoother.set_immediate(gains.0);
        let mut pan_right_smoother = LinearSmoother::default();
        pan_right_smoother.set_immediate(gains.1);

        Voice {
            osc: SineOscillator::default(),
            env: ArEnvelope::default(),
            svf: SvfFilter::default(),
            velocity_smoother: LinearSmoother::default(),
            note: None,
            base_freq: N::from_bits(ZERO),
            pan: N::from_bits(ZERO),
            pan_left_smoother,
            pan_right_smoother,
            age: 0,
        }
    }
}

/// A condition on a voice.
#[derive(Clone, Copy)]
pub enum VoiceFilter {
    /// Every voice.
    Any,
    /// Voices that are fading out.
    Releasing,
    /// Voices that hold this note.
    Playing(u8),
}

impl VoiceFilter {
    /// The condition holds of the voice.
    pub open spec fn accepts<N>(self, voice: Voice<N>) -> bool {
        match self {
            VoiceFilter::Any => true,
            VoiceFilter::Releasing => voice.env.state == EnvState::Release,
            VoiceFilter::Playing(note) => voice.note == Some(note),
        }
    }

    /// Returns `true` when the condition holds of the voice.
    pub fn matches<N: Scalar>(&self, voice: &Voice<N>) -> (accepted: bool)
        ensures
            accepted == self.accepts(*voice),
    {
        match *self {
            VoiceFilter::Any => true,
            VoiceFilter::Releasing => voice.is_releasing(),
            VoiceFilter::Playing(note) => match voice.note() {
                Some(held) => held == note,
                None => false,
            },
        }
    }
}

/// `idx` is the oldest of the voices that the condition accepts: none of them
/// has a lower age, and none before it has the same.
pub open spec fn is_oldest<N>(voices: Seq<Voice<N>>, filter: VoiceFilter, idx: int) -> bool {
    &&& 0 <= idx < voices.len()
    &&& filter.accepts(voices[idx])
    &&& forall|i: int|
        0 <= i < voices.len() && filter.accepts(#[trigger] voices[i]) ==> voices[idx].age
            <= voices[i].age
    &&& forall|i: int|
        0 <= i < idx && filter.accepts(#[trigger] voices[i]) ==> voices[idx].age < voices[i].age
}

/// The condition accepts some voice.
pub open spec fn any_accepted<N>(voices: Seq<Voice<N>>, filter: VoiceFilter) -> bool {
    exists|i: int| 0 <= i < voices.len() && filter.accepts(#[trigger] voices[i])
}

/// Find the oldest of the first `voice_count` voices that the condition accepts.
pub fn find_oldest<N: Scalar>(
    voices: &[Voice<N>],
    voice_count: usize,
    filter: VoiceFilter,
) -> (found: Option<usize>)
    requires
        voice_count <= voices@.len(),
    ensures
        match found {
            Some(idx) => is_oldest(voices@.take(voice_count as int), filter, idx as int),
            None => !any_accepted(voices@.take(voice_count as int), filter),
        },
{
    let ghost scope = voices@.take(voice_count as int);
    let mut found: Option<usize> = None;
    let mut i: usize = 0;
    while i < voice_count
        invariant
            i <= voice_count <= voices@.len(),
            scope == voices@.take(voice_count as int),
            match found {
                Some(idx) => is_oldest(scope.take(i as int), filter, idx as int),
                None => !any_accepted(scope.take(i as int), filter),
            },
        decreases voice_count - i,
    {
        let ghost seen = scope.take(i as int);
        let ghost next = scope.take(i as int + 1);
        assert(voices@[i as int] == next[i as int]);
        assert(forall|j: int| 0 <= j < i ==> #[trigger] next[j] == seen[j]);
        if filter.matches(&voices[i]) {
            match found {
                Some(idx) => {
                    assert(next[idx as int] == seen[idx as int]);
                    if voices[i].age() < voices[idx].age() {
                        assert(voices@[idx as int] == seen[idx as int]);
                        found = Some(i);
                    } else {
                        assert(voices@[idx as int] == seen[idx as int]);
                    }
                },
                None => {
                    assert forall|j: int| 0 <= j < i implies !filter.accepts(#[trigger] next[j]) by {
                        assert(!filter.accepts(seen[j]));
                    }
                    found = Some(i);
                },
            }
        }
        i = i + 1;
    }
    assert(scope.take(i as int) =~= scope);
    found
}

/// `idx` is the voice to take for a new note: the first idle voice if there is
/// one, else the oldest that is fading out, else the oldest.
pub open spec fn is_allocated<N>(voices: Seq<Voice<N>>, idx: int) -> bool {
    if exists|i: int|
        0 <= i < voices.len() && (#[trigger] voices[i]).env.state == EnvState::Idle {
        &&& 0 <= idx < voices.len()
        &&& voices[idx].env.state == EnvState::Idle
        &&& forall|i: int| 0 <= i < idx ==> (#[trigger] voices[i]).env.state != EnvState::Idle
    } else if any_accepted(voices, VoiceFilter::Releasing) {
        is_oldest(voices, VoiceFilter::Releasing, idx)
    } else {
        is_oldest(voices, VoiceFilter::Any, idx)
    }
}

/// Find the voice to take for a new note among the first `voice_count`.
///
/// 1. The first idle voice: nothing is stolen.
/// 2. The oldest voice that is fading out: the least disruptive steal.
/// 3. The oldest voice: the last resort.
///
/// Oldest means of the lowest age. Voices beyond `voice_count` are never taken,
/// which lets the polyphony shrink without resizing anything.
pub fn allocate_voice<N: Scalar>(voices: &[Voice<N>], voice_count: usize) -> (idx: usize)
    requires
        0 < voice_count <= voices@.len(),
    ensures
        is_allocated(voices@.take(voice_count as int), idx as int),
        idx < voice_count,
{
    let ghost scope = voices@.take(voice_count as int);
    let mut i: usize = 0;
    while i < voice_count
        invariant
            i <= voice_count <= voices@.len(),
            scope == voices@.take(voice_count as int),
            forall|j: int| 0 <= j < i ==> (#[trigger] scope[j]).env.state != EnvState::Idle,
        decreases voice_count - i,
    {
        assert(voices@[i as int] == scope[i as int]);
        if voices[i].is_idle() {
            return i;
        }
        i = i + 1;
    }

    if let Some(idx) = find_oldest(voices, voice_count, VoiceFilter::Releasing) {
        return idx;
    }
    match find_oldest(voices, voice_count, VoiceFilter::Any) {
        Some(idx) => idx,
        None => {
            assert(VoiceFilter::Any.accepts(scope[0]));
            0
        },
    }
}

/// The choice of a voice leaves nothing open: two voices that both answer it
/// are the same.
pub proof fn law_allocation_is_unique<N>(voices: Seq<Voice<N>>, idx: int, other: int)
    requires
        is_allocated(voices, idx),
        is_allocated(voices, other),
    ensures
        idx == other,
{
}

/// As long as a voice is idle, no voice that sounds is stolen; as long as one
/// fades out, none that is held is stolen.
pub proof fn law_steals_least_disruptive<N>(voices: Seq<Voice<N>>, idx: int, i: int)
    requires
        is_allocated(voices, idx),
        0 <= i < voices.len(),
    ensures
        voices[i].env.state == EnvState::Idle ==> voices[idx].env.state == EnvState::Idle,
        voices[i].env.state == EnvState::Release ==> voices[idx].env.state != EnvState::Attack,
        voices[idx].env.state == voices[i].env.state && voices[i].env.state != EnvState::Idle
            ==> voices[idx].age <= voices[i].age,
{
    if voices[i].env.state == EnvState::Release {
        assert(VoiceFilter::Releasing.accepts(voices[i]));
    }
}

/// Of voices that are equally fit the first is taken: none before it is idle if it
/// is, and of those before it in the same state each is younger.
pub proof fn law_first_of_equals_is_taken<N>(voices: Seq<Voice<N>>, idx: int, i: int)
    requires
        is_allocated(voices, idx),
        0 <= i < idx,
        voices[i].env.state == voices[idx].env.state,
    ensures
        voices[idx].env.state != EnvState::Idle,
        voices[idx].age < voices[i].age,
{
    assert(VoiceFilter::Any.accepts(voices[i]));
    if voices[idx].env.state == EnvState::Release {
        assert(VoiceFilter::Releasing.accepts(voices[i]));
        assert(VoiceFilter::Releasing.accepts(voices[idx]));
    }
}

/// Some operation on a voice leads from `pre` to `post`: a reset, a pan, the
/// begin or the end of a note, or a sample.
pub open spec fn is_successor<N: Scalar>(pre: Voice<N>, post: Voice<N>) -> bool {
    ||| post.is_cleared()
    ||| exists|pan: N, sample_rate: N| #[trigger] pre.panned_to(post, pan, sample_rate)
    ||| exists|params: NoteOnParams<N>| #[trigger] pre.begun(post, params)
    ||| exists|release_ms: N, sample_rate: N| #[trigger] pre.ended(post, release_ms, sample_rate)
    ||| exists|
        fine_tune_cents: N,
        fold: N,
        lpg_depth: N,
        lpg_cutoff_hz: N,
        lpg_resonance: N,
        sample_rate: N,
        out: (N, N),
    | #[trigger]
        pre.rendered(
            post,
            fine_tune_cents,
            fold,
            lpg_depth,
            lpg_cutoff_hz,
            lpg_resonance,
            sample_rate,
            out,
        )
}

/// A voice holds a note exactly while its envelope is in the attack: this is so
/// at the start, and every operation keeps it.
pub proof fn law_note_is_held_in_attack<N: Scalar>(pre: Voice<N>, post: Voice<N>)
    requires
        pre.is_cleared() || pre.holds_note_in_attack(),
        is_successor(pre, post),
    ensures
        pre.holds_note_in_attack(),
        post.holds_note_in_attack(),
{
}

/// A voice that is idle has no age: this is so at the start, and every operation
/// keeps it.
pub proof fn law_idle_voice_is_ageless<N: Scalar>(pre: Voice<N>, post: Voice<N>)
    requires
        pre.is_cleared() || pre.is_ageless_when_idle(),
        is_successor(pre, post),
    ensures
        pre.is_ageless_when_idle(),
        post.is_ageless_when_idle(),
{
}

/// A voice that is idle is at level 0.0: this is so at the start, and every
/// operation keeps it.
pub proof fn law_idle_voice_is_at_zero<N: Scalar>(pre: Voice<N>, post: Voice<N>)
    requires
        pre.is_cleared() || pre.env.is_idle_at_zero(),
        is_successor(pre, post),
    ensures
        pre.env.is_idle_at_zero(),
        post.env.is_idle_at_zero(),
{
}

/// A note that begins while the voice sounds continues the wave: the phase does
/// not move, and the velocity begins where it stands, with at least one sample
/// in the ramp.
pub proof fn law_retrigger_is_continuous<N: Scalar>(
    pre: Voice<N>,
    post: Voice<N>,
    params: NoteOnParams<N>,
)
    requires
        pre.begun(post, params),
        pre.env.state != EnvState::Idle,
        !ramp_length(VELOCITY_RAMP_SECS, params.sample_rate, 0),
    ensures
        post.osc == pre.osc,
        post.svf == pre.svf,
        post.velocity_smoother.current == pre.velocity_smoother.current,
        post.velocity_smoother.target == params.velocity,
{
}

/// The pan gains do not jump either: a new position leaves them where they
/// stand, with at least one sample in the ramp.
pub proof fn law_pan_is_continuous<N: Scalar>(
    pre: Voice<N>,
    post: Voice<N>,
    pan: N,
    sample_rate: N,
)
    requires
        pre.panned_to(post, pan, sample_rate),
        !ramp_length(PAN_RAMP_SECS, sample_rate, 0),
    ensures
        post.pan_left_smoother.current == pre.pan_left_smoother.current,
        post.pan_right_smoother.current == pre.pan_right_smoother.current,
{
}

/// Pan persists across notes: the begin of a note changes neither the position
/// nor the gains.
pub proof fn law_note_begin_keeps_pan<N: Scalar>(
    pre: Voice<N>,
    post: Voice<N>,
    params: NoteOnParams<N>,
)
    requires
        pre.begun(post, params),
    ensures
        post.pan == pre.pan,
        post.pan_left_smoother == pre.pan_left_smoother,
        post.pan_right_smoother == pre.pan_right_smoother,
{
}

/// Pan persists across notes: the end of a note changes neither the position nor
/// the gains.
pub proof fn law_note_end_keeps_pan<N: Scalar>(
    pre: Voice<N>,
    post: Voice<N>,
    release_ms: N,
    sample_rate: N,
)
    requires
        pre.ended(post, release_ms, sample_rate),
    ensures
        post.pan == pre.pan,
        post.pan_left_smoother == pre.pan_left_smoother,
        post.pan_right_smoother == pre.pan_right_smoother,
{
}

/// The pan gains go to those of the position, and stand there once no ramp is
/// left: this is so at the start, and every operation keeps it.
pub proof fn law_pan_gains_follow_position<N: Scalar>(pre: Voice<N>, post: Voice<N>)
    requires
        pre.is_cleared() || pre.pan_gains_follow(),
        is_successor(pre, post),
    ensures
        pre.pan_gains_follow(),
        post.pan_gains_follow(),
{
    if pre.is_cleared() {
        lemma_cleared_pan_gains_follow(pre);
    }
    if post.is_cleared() {
        lemma_cleared_pan_gains_follow(post);
    } else if exists|pan: N, sample_rate: N| #[trigger] pre.panned_to(post, pan, sample_rate) {
        let (pan, sample_rate) = choose|pan: N, sample_rate: N| #[trigger]
            pre.panned_to(post, pan, sample_rate);
        let (full, gains, n) = choose|full: N, gains: (N, N), n: u32|
            {
                &&& #[trigger] panned(full, pan, gains)
                &&& evaluates(lit(ONE), full)
                &&& #[trigger] ramp_length(PAN_RAMP_SECS, sample_rate, n)
                &&& pre.pan_left_smoother.retargeted(post.pan_left_smoother, gains.0, n)
                &&& pre.pan_right_smoother.retargeted(post.pan_right_smoother, gains.1, n)
            };
        assert(gains == (post.pan_left_smoother.target, post.pan_right_smoother.target));
    }
}

proof fn lemma_cleared_pan_gains_follow<N: Scalar>(voice: Voice<N>)
    requires
        voice.is_cleared(),
    ensures
        voice.pan_gains_follow(),
{
    let gains = choose|gains: (N, N)| #[trigger]
        is_center(gains) && voice.pan_left_smoother.rests_at(gains.0)
            && voice.pan_right_smoother.rests_at(gains.1);
    assert(gains == (voice.pan_left_smoother.target, voice.pan_right_smoother.target));
}

/// With repeatable arithmetic the lowpass gate leaves nothing open.
proof fn lemma_gate_is_repeatable<N: Scalar>(
    pre: SvfFilter<N>,
    input: N,
    env_level: N,
    lpg_depth: N,
    lpg_cutoff_hz: N,
    lpg_resonance: N,
    sample_rate: N,
    post: SvfFilter<N>,
    out: N,
    post2: SvfFilter<N>,
    out2: N,
)
    requires
        repeatable::<N>(),
        gated(pre, post, input, env_level, lpg_depth, lpg_cutoff_hz, lpg_resonance, sample_rate, out),
        gated(
            pre,
            post2,
            input,
            env_level,
            lpg_depth,
            lpg_cutoff_hz,
            lpg_resonance,
            sample_rate,
            out2,
        ),
    ensures
        post == post2,
        out == out2,
{
    let cutoff = gate_cutoff(env_level, lpg_depth, lpg_cutoff_hz);
    let zero = choose|zero: N| #[trigger]
        evaluates(lit(ZERO), zero) && (call_ensures(N::is_above, (lpg_depth, zero), true)
            || call_ensures(N::is_above, (lpg_depth, zero), false));
    assert forall|other: N| #[trigger] evaluates(lit(ZERO), other) implies other == zero by {
        law_formula_has_one_value(lit(ZERO), other, zero);
    }
    if call_ensures(N::is_above, (lpg_depth, zero), true) {
        let (fc, q) = choose|fc: N, q: N|
            {
                &&& #[trigger] pre.processed(post, input, fc, q, sample_rate, out)
                &&& evaluates(cutoff, fc)
                &&& evaluates(quality(lpg_resonance), q)
            };
        let (fc2, q2) = choose|fc: N, q: N|
            {
                &&& #[trigger] pre.processed(post2, input, fc, q, sample_rate, out2)
                &&& evaluates(cutoff, fc)
                &&& evaluates(quality(lpg_resonance), q)
            };
        law_formula_has_one_value(cutoff, fc, fc2);
        law_formula_has_one_value(quality(lpg_resonance), q, q2);
        law_filtering_is_repeatable(pre, input, fc, q, sample_rate, post, out, post2, out2);
    }
}

impl<N: Scalar> Voice<N> {
    /// The two voices are the same in what will be heard of them: envelope,
    /// filter and pan, and, while they sound, phase, velocity and frequency. The
    /// tuning of the oscillator is open, since every sample sets it anew; so is
    /// what the begin of a note from silence sets anew.
    pub open spec fn agrees_with(self, other: Self) -> bool {
        &&& self.env.agrees_with(other.env)
        &&& self.svf == other.svf
        &&& self.pan == other.pan
        &&& self.pan_left_smoother.agrees_with(other.pan_left_smoother)
        &&& self.pan_right_smoother.agrees_with(other.pan_right_smoother)
        &&& self.env.state != EnvState::Idle ==> {
            &&& self.osc.phase == other.osc.phase
            &&& self.velocity_smoother.agrees_with(other.velocity_smoother)
            &&& self.base_freq == other.base_freq
        }
    }
}

impl<N: Scalar> Voice<N> {
    /// This voice with the filter of another.
    pub open spec fn with_filter(self, svf: SvfFilter<N>) -> Self {
        Voice { svf, ..self }
    }

    /// The two voices agree but for the filter, which is not heard at a depth that
    /// is not above 0.
    pub open spec fn agrees_but_for_filter(self, other: Self) -> bool {
        self.agrees_with(other.with_filter(self.svf))
    }
}

/// Voices at rest in the same pan position are in the same place: the gains of a
/// position are always the same.
pub proof fn law_resting_pan_gains_agree<N: Scalar>(voice: Voice<N>, other: Voice<N>)
    requires
        repeatable::<N>(),
        voice.pan == other.pan,
        voice.pan_gains_follow(),
        other.pan_gains_follow(),
        voice.pan_is_at_rest(),
        other.pan_is_at_rest(),
    ensures
        voice.pan_left_smoother.agrees_with(other.pan_left_smoother),
        voice.pan_right_smoother.agrees_with(other.pan_right_smoother),
{
    let gains = (voice.pan_left_smoother.target, voice.pan_right_smoother.target);
    let gains2 = (other.pan_left_smoother.target, other.pan_right_smoother.target);
    let (full, pan) = choose|full: N, position: N|
        {
            &&& #[trigger] panned(full, position, gains)
            &&& evaluates(lit(ONE), full)
            &&& position == voice.pan || (evaluates(lit(ZERO), position) && evaluates(
                lit(ZERO),
                voice.pan,
            ))
        };
    let (full2, pan2) = choose|full: N, position: N|
        {
            &&& #[trigger] panned(full, position, gains2)
            &&& evaluates(lit(ONE), full)
            &&& position == other.pan || (evaluates(lit(ZERO), position) && evaluates(
                lit(ZERO),
                other.pan,
            ))
        };
    assert forall|x: N, y: N| #[trigger]
        evaluates(lit(ZERO), x) && #[trigger] evaluates(lit(ZERO), y) implies x == y by {
        law_formula_has_one_value(lit(ZERO), x, y);
    }
    assert(pan == pan2);
    law_formula_has_one_value(lit(ONE), full, full2);
    law_formula_has_one_value(val(full).times(pan_angle(pan).cosine()), gains.0, gains2.0);
    law_formula_has_one_value(val(full).times(pan_angle(pan).sine()), gains.1, gains2.1);
}

/// A voice that was reset agrees with a fresh one: any two cleared voices agree.
pub proof fn law_cleared_voices_agree<N: Scalar>(voice: Voice<N>, other: Voice<N>)
    requires
        repeatable::<N>(),
        voice.is_cleared(),
        other.is_cleared(),
    ensures
        voice.agrees_with(other),
{
    assert forall|x: N, y: N| #[trigger]
        evaluates(lit(ZERO), x) && #[trigger] evaluates(lit(ZERO), y) implies x == y by {
        law_formula_has_one_value(lit(ZERO), x, y);
    }
    assert forall|x: N, y: N| #[trigger]
        evaluates(lit(ONE), x) && #[trigger] evaluates(lit(ONE), y) implies x == y by {
        law_formula_has_one_value(lit(ONE), x, y);
    }
    let gains = choose|gains: (N, N)| #[trigger]
        is_center(gains) && voice.pan_left_smoother.rests_at(gains.0)
            && voice.pan_right_smoother.rests_at(gains.1);
    let gains2 = choose|gains: (N, N)| #[trigger]
        is_center(gains) && other.pan_left_smoother.rests_at(gains.0)
            && other.pan_right_smoother.rests_at(gains.1);
    let (full, center) = choose|full: N, center: N| #[trigger]
        panned(full, center, gains) && evaluates(lit(ONE), full) && evaluates(lit(ZERO), center);
    let (full2, center2) = choose|full: N, center: N| #[trigger]
        panned(full, center, gains2) && evaluates(lit(ONE), full) && evaluates(lit(ZERO), center);
    law_formula_has_one_value(val(full).times(pan_angle(center).cosine()), gains.0, gains2.0);
    law_formula_has_one_value(val(full).times(pan_angle(center).sine()), gains.1, gains2.1);
}

/// Voices that agree sound the same: with the same controls they hand out the
/// same sample, and agree after it.
pub proof fn law_agreeing_voices_sound_alike<N: Scalar>(
    voice: Voice<N>,
    other: Voice<N>,
    fine_tune_cents: N,
    fold: N,
    lpg_depth: N,
    lpg_cutoff_hz: N,
    lpg_resonance: N,
    sample_rate: N,
    post: Voice<N>,
    out: (N, N),
    post2: Voice<N>,
    out2: (N, N),
)
    requires
        repeatable::<N>(),
        voice.agrees_with(other),
        voice.rendered(
            post,
            fine_tune_cents,
            fold,
            lpg_depth,
            lpg_cutoff_hz,
            lpg_resonance,
            sample_rate,
            out,
        ),
        other.rendered(
            post2,
            fine_tune_cents,
            fold,
            lpg_depth,
            lpg_cutoff_hz,
            lpg_resonance,
            sample_rate,
            out2,
        ),
    ensures
        out == out2,
        post.agrees_with(post2),
{
    if voice.env.state == EnvState::Idle {
        law_formula_has_one_value(lit(ZERO), out.0, out2.0);
        law_formula_has_one_value(lit(ZERO), out.1, out2.1);
    } else {
        let a = choose|chain: SignalChain<N>| #[trigger]
            voice.sounds(
                post,
                fine_tune_cents,
                fold,
                lpg_depth,
                lpg_cutoff_hz,
                lpg_resonance,
                sample_rate,
                chain,
                out,
            );
        let b = choose|chain: SignalChain<N>| #[trigger]
            other.sounds(
                post2,
                fine_tune_cents,
                fold,
                lpg_depth,
                lpg_cutoff_hz,
                lpg_resonance,
                sample_rate,
                chain,
                out2,
            );
        law_formula_has_one_value(detuned(voice.base_freq, fine_tune_cents), a.freq, b.freq);
        law_formula_has_one_value(
            val(a.freq).over(val(sample_rate)),
            a.osc.phase_increment,
            b.osc.phase_increment,
        );
        assert(a.osc == b.osc);
        law_oscillation_is_repeatable(a.osc, post.osc, a.osc_sample, post2.osc, b.osc_sample);
        law_folding_is_repeatable(a.osc_sample, fold, a.folded, b.folded);
        law_envelope_is_repeatable(
            voice.env,
            other.env,
            post.env,
            a.env_level,
            post2.env,
            b.env_level,
        );
        lemma_gate_is_repeatable(
            voice.svf,
            a.folded,
            a.env_level,
            lpg_depth,
            lpg_cutoff_hz,
            lpg_resonance,
            sample_rate,
            post.svf,
            a.filtered,
            post2.svf,
            b.filtered,
        );
        law_smoothing_is_repeatable(
            voice.velocity_smoother,
            other.velocity_smoother,
            post.velocity_smoother,
            a.velocity,
            post2.velocity_smoother,
            b.velocity,
        );
        law_smoothing_is_repeatable(
            voice.pan_left_smoother,
            other.pan_left_smoother,
            post.pan_left_smoother,
            a.pan_left,
            post2.pan_left_smoother,
            b.pan_left,
        );
        law_smoothing_is_repeatable(
            voice.pan_right_smoother,
            other.pan_right_smoother,
            post.pan_right_smoother,
            a.pan_right,
            post2.pan_right_smoother,
            b.pan_right,
        );
        let mono = val(a.filtered).times(val(a.env_level)).times(val(a.velocity));
        law_formula_has_one_value(mono.times(val(a.pan_left)), out.0, out2.0);
        law_formula_has_one_value(mono.times(val(a.pan_right)), out.1, out2.1);
    }
}

/// Voices that agree begin a note alike.
pub proof fn law_agreeing_voices_begin_alike<N: Scalar>(
    voice: Voice<N>,
    other: Voice<N>,
    params: NoteOnParams<N>,
    post: Voice<N>,
    post2: Voice<N>,
)
    requires
        repeatable::<N>(),
        voice.agrees_with(other),
        voice.begun(post, params),
        other.begun(post2, params),
    ensures
        post.agrees_with(post2),
{
    law_formula_has_one_value(
        decay_coefficient(params.attack_ms, params.sample_rate),
        post.env.attack_coeff,
        post2.env.attack_coeff,
    );
    if voice.env.state != EnvState::Idle {
        let n = choose|n: u32|
            {
                &&& #[trigger] ramp_length(VELOCITY_RAMP_SECS, params.sample_rate, n)
                &&& voice.velocity_smoother.retargeted(post.velocity_smoother, params.velocity, n)
            };
        let n2 = choose|n: u32|
            {
                &&& #[trigger] ramp_length(VELOCITY_RAMP_SECS, params.sample_rate, n)
                &&& other.velocity_smoother.retargeted(post2.velocity_smoother, params.velocity, n)
            };
        law_ramp_length_is_unique(VELOCITY_RAMP_SECS, params.sample_rate, n, n2);
        law_retargeting_is_repeatable(
            voice.velocity_smoother,
            other.velocity_smoother,
            params.velocity,
            n,
            post.velocity_smoother,
            post2.velocity_smoother,
        );
    }
    let tuned = ArEnvelope { attack_coeff: post.env.attack_coeff, ..voice.env };
    let tuned2 = ArEnvelope { attack_coeff: post2.env.attack_coeff, ..other.env };
    let initial = choose|initial: N|
        {
            &&& #[trigger] voice.begins_at(params, initial)
            &&& tuned.triggered(post.env, initial)
        };
    let initial2 = choose|initial: N|
        {
            &&& #[trigger] other.begins_at(params, initial)
            &&& tuned2.triggered(post2.env, initial)
        };
    assert(initial == initial2) by {
        assert forall|x: N, y: N| #[trigger]
            evaluates(lit(ZERO), x) && #[trigger] evaluates(lit(ZERO), y) implies x == y by {
            law_formula_has_one_value(lit(ZERO), x, y);
        }
        if evaluates(transient_level(params), initial) && evaluates(
            transient_level(params),
            initial2,
        ) {
            law_formula_has_one_value(transient_level(params), initial, initial2);
        }
    }
    law_formula_has_one_value(
        val(initial).clamp(lit(ZERO), lit(ONE)),
        post.env.level,
        post2.env.level,
    );
}

/// Voices that agree end a note alike.
pub proof fn law_agreeing_voices_end_alike<N: Scalar>(
    voice: Voice<N>,
    other: Voice<N>,
    release_ms: N,
    sample_rate: N,
    post: Voice<N>,
    post2: Voice<N>,
)
    requires
        repeatable::<N>(),
        voice.agrees_with(other),
        voice.ended(post, release_ms, sample_rate),
        other.ended(post2, release_ms, sample_rate),
    ensures
        post.agrees_with(post2),
{
    let coeff = post.env.release_coeff;
    law_formula_has_one_value(
        decay_coefficient(release_ms, sample_rate),
        coeff,
        post2.env.release_coeff,
    );
    law_release_is_repeatable(
        ArEnvelope { release_coeff: coeff, ..voice.env },
        ArEnvelope { release_coeff: coeff, ..other.env },
        post.env,
        post2.env,
    );
}

/// Voices that agree pan alike.
pub proof fn law_agreeing_voices_pan_alike<N: Scalar>(
    voice: Voice<N>,
    other: Voice<N>,
    pan: N,
    sample_rate: N,
    post: Voice<N>,
    post2: Voice<N>,
)
    requires
        repeatable::<N>(),
        voice.agrees_with(other),
        voice.panned_to(post, pan, sample_rate),
        other.panned_to(post2, pan, sample_rate),
    ensures
        post.agrees_with(post2),
{
    let (full, gains, n) = choose|full: N, gains: (N, N), n: u32|
        {
            &&& #[trigger] panned(full, pan, gains)
            &&& evaluates(lit(ONE), full)
            &&& #[trigger] ramp_length(PAN_RAMP_SECS, sample_rate, n)
            &&& voice.pan_left_smoother.retargeted(post.pan_left_smoother, gains.0, n)
            &&& voice.pan_right_smoother.retargeted(post.pan_right_smoother, gains.1, n)
        };
    let (full2, gains2, n2) = choose|full: N, gains: (N, N), n: u32|
        {
            &&& #[trigger] panned(full, pan, gains)
            &&& evaluates(lit(ONE), full)
            &&& #[trigger] ramp_length(PAN_RAMP_SECS, sample_rate, n)
            &&& other.pan_left_smoother.retargeted(post2.pan_left_smoother, gains.0, n)
            &&& other.pan_right_smoother.retargeted(post2.pan_right_smoother, gains.1, n)
        };
    law_formula_has_one_value(lit(ONE), full, full2);
    law_formula_has_one_value(val(full).times(pan_angle(pan).cosine()), gains.0, gains2.0);
    law_formula_has_one_value(val(full).times(pan_angle(pan).sine()), gains.1, gains2.1);
    law_ramp_length_is_unique(PAN_RAMP_SECS, sample_rate, n, n2);
    law_retargeting_is_repeatable(
        voice.pan_left_smoother,
        other.pan_left_smoother,
        gains.0,
        n,
        post.pan_left_smoother,
        post2.pan_left_smoother,
    );
    law_retargeting_is_repeatable(
        voice.pan_right_smoother,
        other.pan_right_smoother,
        gains.1,
        n,
        post.pan_right_smoother,
        post2.pan_right_smoother,
    );
}

/// The depth never answers that it is above 0.
pub open spec fn is_bypass<N: Scalar>(lpg_depth: N) -> bool {
    forall|zero: N|
        evaluates(lit(ZERO), zero) ==> !#[trigger] call_ensures(N::is_above, (lpg_depth, zero), true)
}

/// A depth that is not above 0 bypasses the lowpass gate: the filter is untouched, and
/// cutoff and resonance are not heard.
pub proof fn law_zero_depth_bypasses_gate<N: Scalar>(
    voice: Voice<N>,
    fine_tune_cents: N,
    fold: N,
    lpg_depth: N,
    lpg_cutoff_hz: N,
    lpg_resonance: N,
    other_cutoff_hz: N,
    other_resonance: N,
    sample_rate: N,
    post: Voice<N>,
    out: (N, N),
)
    requires
        is_bypass(lpg_depth),
        voice.rendered(
            post,
            fine_tune_cents,
            fold,
            lpg_depth,
            lpg_cutoff_hz,
            lpg_resonance,
            sample_rate,
            out,
        ),
    ensures
        post.svf == voice.svf,
        voice.rendered(
            post,
            fine_tune_cents,
            fold,
            lpg_depth,
            other_cutoff_hz,
            other_resonance,
            sample_rate,
            out,
        ),
{
    if voice.env.state != EnvState::Idle {
        let chain = choose|chain: SignalChain<N>| #[trigger]
            voice.sounds(
                post,
                fine_tune_cents,
                fold,
                lpg_depth,
                lpg_cutoff_hz,
                lpg_resonance,
                sample_rate,
                chain,
                out,
            );
        assert(voice.sounds(
            post,
            fine_tune_cents,
            fold,
            lpg_depth,
            other_cutoff_hz,
            other_resonance,
            sample_rate,
            chain,
            out,
        ));
    }
}

/// With repeatable arithmetic a sample of a voice leaves nothing open: the same
/// voice and controls give the same sample and the same voice after it.
pub proof fn law_rendering_is_repeatable<N: Scalar>(
    voice: Voice<N>,
    fine_tune_cents: N,
    fold: N,
    lpg_depth: N,
    lpg_cutoff_hz: N,
    lpg_resonance: N,
    sample_rate: N,
    post: Voice<N>,
    out: (N, N),
    post2: Voice<N>,
    out2: (N, N),
)
    requires
        repeatable::<N>(),
        voice.rendered(
            post,
            fine_tune_cents,
            fold,
            lpg_depth,
            lpg_cutoff_hz,
            lpg_resonance,
            sample_rate,
            out,
        ),
        voice.rendered(
            post2,
            fine_tune_cents,
            fold,
            lpg_depth,
            lpg_cutoff_hz,
            lpg_resonance,
            sample_rate,
            out2,
        ),
    ensures
        out == out2,
        post == post2,
{
    law_agreeing_voices_sound_alike(
        voice,
        voice,
        fine_tune_cents,
        fold,
        lpg_depth,
        lpg_cutoff_hz,
        lpg_resonance,
        sample_rate,
        post,
        out,
        post2,
        out2,
    );
    if voice.env.state != EnvState::Idle {
        let a = choose|chain: SignalChain<N>| #[trigger]
            voice.sounds(
                post,
                fine_tune_cents,
                fold,
                lpg_depth,
                lpg_cutoff_hz,
                lpg_resonance,
                sample_rate,
                chain,
                out,
            );
        let b = choose|chain: SignalChain<N>| #[trigger]
            voice.sounds(
                post2,
                fine_tune_cents,
                fold,
                lpg_depth,
                lpg_cutoff_hz,
                lpg_resonance,
                sample_rate,
                chain,
                out2,
            );
        law_formula_has_one_value(detuned(voice.base_freq, fine_tune_cents), a.freq, b.freq);
        law_formula_has_one_value(
            val(a.freq).over(val(sample_rate)),
            a.osc.phase_increment,
            b.osc.phase_increment,
        );
        law_oscillation_is_repeatable(a.osc, post.osc, a.osc_sample, post2.osc, b.osc_sample);
        law_smoothing_is_repeatable(
            voice.velocity_smoother,
            voice.velocity_smoother,
            post.velocity_smoother,
            a.velocity,
            post2.velocity_smoother,
            b.velocity,
        );
        assert(post.velocity_smoother == post2.velocity_smoother);
        assert(post.pan_left_smoother == post2.pan_left_smoother);
        assert(post.pan_right_smoother == post2.pan_right_smoother);
        assert(post.env == post2.env);
    }
}

/// At depth 0 cutoff and resonance are not heard: the same voice gives the same
/// sample, and is the same after it, whatever they are.
pub proof fn law_zero_depth_hears_no_cutoff<N: Scalar>(
    voice: Voice<N>,
    fine_tune_cents: N,
    fold: N,
    lpg_depth: N,
    lpg_cutoff_hz: N,
    lpg_resonance: N,
    other_cutoff_hz: N,
    other_resonance: N,
    sample_rate: N,
    post: Voice<N>,
    out: (N, N),
    post2: Voice<N>,
    out2: (N, N),
)
    requires
        repeatable::<N>(),
        is_bypass(lpg_depth),
        voice.rendered(
            post,
            fine_tune_cents,
            fold,
            lpg_depth,
            lpg_cutoff_hz,
            lpg_resonance,
            sample_rate,
            out,
        ),
        voice.rendered(
            post2,
            fine_tune_cents,
            fold,
            lpg_depth,
            other_cutoff_hz,
            other_resonance,
            sample_rate,
            out2,
        ),
    ensures
        out == out2,
        post == post2,
{
    law_zero_depth_bypasses_gate(
        voice,
        fine_tune_cents,
        fold,
        lpg_depth,
        lpg_cutoff_hz,
        lpg_resonance,
        other_cutoff_hz,
        other_resonance,
        sample_rate,
        post,
        out,
    );
    law_rendering_is_repeatable(
        voice,
        fine_tune_cents,
        fold,
        lpg_depth,
        other_cutoff_hz,
        other_resonance,
        sample_rate,
        post,
        out,
        post2,
        out2,
    );
}

/// At depth 0 the filter is not heard: with any other filter in its place the
/// voice gives the same sample, and the filter stays as it is.
pub proof fn law_zero_depth_hears_no_filter<N: Scalar>(
    voice: Voice<N>,
    svf: SvfFilter<N>,
    fine_tune_cents: N,
    fold: N,
    lpg_depth: N,
    lpg_cutoff_hz: N,
    lpg_resonance: N,
    sample_rate: N,
    post: Voice<N>,
    out: (N, N),
)
    requires
        is_bypass(lpg_depth),
        voice.rendered(
            post,
            fine_tune_cents,
            fold,
            lpg_depth,
            lpg_cutoff_hz,
            lpg_resonance,
            sample_rate,
            out,
        ),
    ensures
        post.svf == voice.svf,
        voice.with_filter(svf).rendered(
            post.with_filter(svf),
            fine_tune_cents,
            fold,
            lpg_depth,
            lpg_cutoff_hz,
            lpg_resonance,
            sample_rate,
            out,
        ),
{
    if voice.env.state != EnvState::Idle {
        let chain = choose|chain: SignalChain<N>| #[trigger]
            voice.sounds(
                post,
                fine_tune_cents,
                fold,
                lpg_depth,
                lpg_cutoff_hz,
                lpg_resonance,
                sample_rate,
                chain,
                out,
            );
        assert(voice.with_filter(svf).sounds(
            post.with_filter(svf),
            fine_tune_cents,
            fold,
            lpg_depth,
            lpg_cutoff_hz,
            lpg_resonance,
            sample_rate,
            chain,
            out,
        ));
    }
}

/// With repeatable arithmetic a duration has one length in samples.
pub proof fn law_ramp_length_is_unique<N: Scalar>(seconds: u32, sample_rate: N, n: u32, n2: u32)
    requires
        repeatable::<N>(),
        ramp_length(seconds, sample_rate, n),
        ramp_length(seconds, sample_rate, n2),
    ensures
        n == n2,
{
    let product = lit(seconds).times(val(sample_rate));
    let length = choose|length: N| #[trigger]
        call_ensures(N::to_u32, (length,), n) && evaluates(product, length);
    let length2 = choose|length: N| #[trigger]
        call_ensures(N::to_u32, (length,), n2) && evaluates(product, length);
    law_formula_has_one_value(product, length, length2);
}

} // verus!
