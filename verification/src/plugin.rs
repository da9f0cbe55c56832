//! The synthesizer as a whole: notes to voices, voices to a stereo signal.

use vstd::prelude::*;

use crate::dsp::envelope::EnvState;
use crate::dsp::smoother::LinearSmoother;
use crate::dsp::voice::{
    allocate_voice, any_accepted, find_oldest, is_allocated, is_oldest, ramp_length, ramp_samples,
    NoteOnParams, Voice, VoiceFilter, MAX_VOICES,
};
use crate::formula::{count, evaluates, lit, val, Formula};
use crate::params::{SineOneParams, FULL_CIRCLE};
use crate::scalar::{Scalar, ONE, ZERO};

verus! {

/// Duration of the gain ramp when the number of voices changes: 0.005 seconds.
/// The binary32 encoding of the number.
pub const GAIN_RAMP_SECS: u32 = 0x3ba3_d70a;

/// An event that the synthesizer plays, at a sample of the current block.
#[derive(Clone, Copy)]
pub enum NoteEvent<N> {
    /// A key goes down. `base_freq` is the frequency in Hz of the note.
    NoteOn { timing: u32, note: u8, velocity: N, base_freq: N },
    /// A key goes up.
    NoteOff { timing: u32, note: u8 },
    /// The pan position of a note changes.
    PolyPan { timing: u32, note: u8, pan: N },
    /// Anything else.
    Other { timing: u32 },
}

impl<N> NoteEvent<N> {
    /// The sample of the block at which the event is due.
    pub open spec fn at(self) -> u32 {
        match self {
            NoteEvent::NoteOn { timing, .. } => timing,
            NoteEvent::NoteOff { timing, .. } => timing,
            NoteEvent::PolyPan { timing, .. } => timing,
            NoteEvent::Other { timing } => timing,
        }
    }

    /// Returns the sample of the block at which the event is due.
    pub fn timing(&self) -> (timing: u32)
        ensures
            timing == self.at(),
    {
        match self {
            NoteEvent::NoteOn { timing, .. } => *timing,
            NoteEvent::NoteOff { timing, .. } => *timing,
            NoteEvent::PolyPan { timing, .. } => *timing,
            NoteEvent::Other { timing } => *timing,
        }
    }
}

/// The smoothed parameter values of one sample.
#[derive(Clone, Copy)]
pub struct SampleControls<N> {
    pub fine_tune_cents: N,
    pub fold: N,
    pub lpg_depth: N,
    pub lpg_cutoff_hz: N,
    pub lpg_resonance: N,
}

/// Gain compensation for a number of summed voices: `1 / sqrt(n)`.
pub open spec fn compensation<N>(voice_count: usize) -> Formula<N> {
    lit(ONE).over(count(voice_count).square_root())
}

/// Gain compensation for polyphonic summing.
pub fn voice_gain<N: Scalar>(voice_count: usize) -> (gain: N)
    ensures
        evaluates(compensation(voice_count), gain),
{
    proof {
        reveal_with_fuel(evaluates, 4);
    }
    N::from_bits(ONE).over(N::from_usize(voice_count).square_root())
}

/// The number of voices that a parameter value stands for, held to 1 to 8. A
/// negative value, as an unsigned count, lies beyond every bound.
pub open spec fn held_voice_count(value: i32) -> usize {
    if value < 0 || value > MAX_VOICES {
        MAX_VOICES
    } else if value == 0 {
        1
    } else {
        value as usize
    }
}

/// The formula of the sum of the first `n` samples, taken over the voices that
/// are not idle.
pub open spec fn active_sum<N>(voices: Seq<Voice<N>>, samples: Seq<N>, n: nat) -> Formula<N>
    decreases n,
{
    if n == 0 {
        lit(ZERO)
    } else if voices[n - 1].env.state == EnvState::Idle {
        active_sum(voices, samples, (n - 1) as nat)
    } else {
        active_sum(voices, samples, (n - 1) as nat).plus(val(samples[n - 1]))
    }
}

/// `idx` is the first voice that holds the note.
pub open spec fn is_first_playing<N>(voices: Seq<Voice<N>>, note: u8, idx: int) -> bool {
    &&& 0 <= idx < voices.len()
    &&& voices[idx].note == Some(note)
    &&& forall|i: int| 0 <= i < idx ==> (#[trigger] voices[i]).note != Some(note)
}

/// The first event from `from` on that is not due at sample `sample_idx`.
pub open spec fn due_end<N>(events: Seq<NoteEvent<N>>, from: int, sample_idx: int) -> int
    decreases events.len() - from,
{
    if 0 <= from < events.len() && events[from].at() == sample_idx {
        due_end(events, from + 1, sample_idx)
    } else {
        from
    }
}

/// The synthesizer.
pub struct SineOne<N> {
    pub params: SineOneParams<N>,
    /// Sample rate in Hz of the last `initialize()`.
    pub sample_rate: N,
    /// The voices. New notes go to the first ones, as many as the parameter
    /// says; those beyond may still sound while they fade out.
    pub voices: [Voice<N>; MAX_VOICES],
    /// Counter of the notes begun, from which voices take their age.
    pub next_voice_age: u64,
    /// Gain compensation, smoothed against clicks when the number of voices
    /// changes.
    pub gain_smoother: LinearSmoother<N>,
    /// Number of voices in the last block.
    pub previous_voice_count: usize,
}

impl<N: Scalar> SineOne<N> {
    /// The number of voices in the last block is one that there can be.
    pub open spec fn is_consistent(self) -> bool {
        self.previous_voice_count <= MAX_VOICES
    }

    /// Gain and voice count follow the parameter, taken as an unsigned count.
    pub open spec fn gain_is_synced(self) -> bool {
        &&& self.previous_voice_count == self.params.voices.value as usize
        &&& exists|gain: N| #[trigger]
            self.gain_smoother.rests_at(gain) && evaluates(
                compensation(self.previous_voice_count),
                gain,
            )
    }

    /// The synthesizer is as a reset leaves it: all voices cleared, the counter at
    /// 0, the gain in line with the parameter.
    pub open spec fn is_reset(self) -> bool {
        &&& self.next_voice_age == 0
        &&& self.gain_is_synced()
        &&& forall|i: int| 0 <= i < MAX_VOICES ==> (#[trigger] self.voices@[i]).is_cleared()
    }

    /// `post` differs from this synthesizer in nothing but the voice `idx`.
    pub open spec fn changed_at(self, post: Self, idx: int) -> bool {
        &&& post == (SineOne { voices: post.voices, ..self })
        &&& forall|i: int|
            0 <= i < MAX_VOICES && i != idx ==> #[trigger] post.voices@[i] == self.voices@[i]
    }

    /// `post` is this synthesizer with its number of voices set: if it has
    /// shrunk, the voices that fall out and are not idle are released; if it has
    /// changed, the gain ramps to the new compensation.
    pub open spec fn resized(self, post: Self, voice_count: usize) -> bool {
        if voice_count == self.previous_voice_count {
            post == self
        } else {
            &&& post == (SineOne {
                voices: post.voices,
                gain_smoother: post.gain_smoother,
                previous_voice_count: voice_count,
                ..self
            })
            &&& forall|i: int|
                #![trigger post.voices@[i]]
                0 <= i < MAX_VOICES ==> if voice_count <= i < self.previous_voice_count
                    && self.voices@[i].env.state != EnvState::Idle {
                    self.voices@[i].ended(
                        post.voices@[i],
                        self.params.release.value,
                        self.sample_rate,
                    )
                } else {
                    post.voices@[i] == self.voices@[i]
                }
            &&& exists|gain: N, n: u32|
                {
                    &&& #[trigger] ramp_length(GAIN_RAMP_SECS, self.sample_rate, n)
                    &&& #[trigger] evaluates(compensation(voice_count), gain)
                    &&& self.gain_smoother.retargeted(post.gain_smoother, gain, n)
                }
        }
    }

    /// The start phase of a new note, in cycles: the degrees over 360, less the
    /// whole cycles.
    pub open spec fn start_phase_in_cycles(self) -> Formula<N> {
        val(self.params.start_phase.value).over(lit(FULL_CIRCLE)).remainder(lit(ONE))
    }

    /// What a note takes along that begins now at a start phase.
    pub open spec fn note_params(
        self,
        note: u8,
        velocity: N,
        base_freq: N,
        start_phase_normalized: N,
    ) -> NoteOnParams<N> {
        NoteOnParams {
            note,
            velocity,
            base_freq,
            start_phase_normalized,
            sample_rate: self.sample_rate,
            attack_ms: self.params.attack.value,
            age: (self.next_voice_age + 1) as u64,
        }
    }

    /// `post` is this synthesizer after an event.
    ///
    /// - A key that goes down takes the voice that the allocation picks among
    ///   the first `voice_count`, with a new age.
    /// - A key that goes up releases the oldest of all voices that hold the note,
    ///   if there is one.
    /// - A pan moves the only voice if there is one voice, whatever the note;
    ///   else the first voice that holds the note, if there is one.
    /// - Anything else changes nothing.
    pub open spec fn handled(self, post: Self, event: NoteEvent<N>, voice_count: usize) -> bool {
        match event {
            NoteEvent::NoteOn { timing, note, velocity, base_freq } => {
                &&& post.next_voice_age == self.next_voice_age + 1
                &&& exists|idx: int, start: N|
                    {
                        &&& #[trigger] is_allocated(self.voices@.take(voice_count as int), idx)
                        &&& #[trigger] evaluates(self.start_phase_in_cycles(), start)
                        &&& (SineOne {
                            next_voice_age: post.next_voice_age,
                            ..self
                        }).changed_at(post, idx)
                        &&& self.voices@[idx].begun(
                            post.voices@[idx],
                            self.note_params(note, velocity, base_freq, start),
                        )
                    }
            },
            NoteEvent::NoteOff { timing, note } => {
                if any_accepted(self.voices@, VoiceFilter::Playing(note)) {
                    exists|idx: int|
                        {
                            &&& #[trigger] is_oldest(self.voices@, VoiceFilter::Playing(note), idx)
                            &&& self.changed_at(post, idx)
                            &&& self.voices@[idx].ended(
                                post.voices@[idx],
                                self.params.release.value,
                                self.sample_rate,
                            )
                        }
                } else {
                    post == self
                }
            },
            NoteEvent::PolyPan { timing, note, pan } => {
                if voice_count == 1 {
                    &&& self.changed_at(post, 0)
                    &&& self.voices@[0].panned_to(post.voices@[0], pan, self.sample_rate)
                } else if any_accepted(self.voices@, VoiceFilter::Playing(note)) {
                    exists|idx: int|
                        {
                            &&& #[trigger] is_first_playing(self.voices@, note, idx)
                            &&& self.changed_at(post, idx)
                            &&& self.voices@[idx].panned_to(
                                post.voices@[idx],
                                pan,
                                self.sample_rate,
                            )
                        }
                } else {
                    post == self
                }
            },
            NoteEvent::Other { timing } => post == self,
        }
    }

    /// `post` is this synthesizer after the events, one after the other.
    pub open spec fn handled_all(
        self,
        post: Self,
        events: Seq<NoteEvent<N>>,
        voice_count: usize,
    ) -> bool
        decreases events.len(),
    {
        if events.len() == 0 {
            post == self
        } else {
            exists|mid: Self|
                {
                    &&& self.handled_all(mid, events.drop_last(), voice_count)
                    &&& #[trigger] mid.handled(post, events.last(), voice_count)
                }
        }
    }

    /// `post` is this synthesizer one sample later, having handed out `out`, by
    /// way of a gain and the samples of the voices: every voice that is not idle
    /// is rendered, the samples are summed, and the sums are scaled by gain and
    /// output gain.
    pub open spec fn mixed(
        self,
        post: Self,
        controls: SampleControls<N>,
        output_gain: N,
        gain: N,
        lefts: Seq<N>,
        rights: Seq<N>,
        out: (N, N),
    ) -> bool {
        let combined = val(gain).times(val(output_gain));
        &&& post == (SineOne {
            voices: post.voices,
            gain_smoother: post.gain_smoother,
            ..self
        })
        &&& self.gain_smoother.advanced(post.gain_smoother, gain)
        &&& forall|i: int|
            #![trigger post.voices@[i]]
            0 <= i < MAX_VOICES ==> if self.voices@[i].env.state == EnvState::Idle {
                post.voices@[i] == self.voices@[i]
            } else {
                self.voices@[i].rendered(
                    post.voices@[i],
                    controls.fine_tune_cents,
                    controls.fold,
                    controls.lpg_depth,
                    controls.lpg_cutoff_hz,
                    controls.lpg_resonance,
                    self.sample_rate,
                    (lefts[i], rights[i]),
                )
            }
        &&& evaluates(
            active_sum(self.voices@, lefts, MAX_VOICES as nat).times(combined),
            out.0,
        )
        &&& evaluates(
            active_sum(self.voices@, rights, MAX_VOICES as nat).times(combined),
            out.1,
        )
    }

    /// `post` is this synthesizer one sample later, having handed out `out`.
    pub open spec fn rendered(
        self,
        post: Self,
        controls: SampleControls<N>,
        output_gain: N,
        out: (N, N),
    ) -> bool {
        exists|gain: N, lefts: Seq<N>, rights: Seq<N>| #[trigger]
            self.mixed(post, controls, output_gain, gain, lefts, rights, out)
    }
}

/// The course of a block: the synthesizer at the begin of each sample and at the
/// end of the last, the synthesizer in each sample between events and rendering,
/// and how many events are behind it at each begin and at the end.
pub struct BlockCourse<N> {
    pub states: Seq<SineOne<N>>,
    pub played: Seq<SineOne<N>>,
    pub cursors: Seq<int>,
}

impl<N: Scalar> BlockCourse<N> {
    /// The course is that of the first `n` samples of a block that begins at
    /// `start`.
    pub open spec fn is_course(
        self,
        start: SineOne<N>,
        voice_count: usize,
        events: Seq<NoteEvent<N>>,
        controls: Seq<SampleControls<N>>,
        output_gain: N,
        left: Seq<N>,
        right: Seq<N>,
        n: int,
    ) -> bool {
        &&& self.states.len() == n + 1
        &&& self.played.len() == n
        &&& self.cursors.len() == n + 1
        &&& self.states[0] == start
        &&& self.cursors[0] == 0
        &&& forall|i: int|
            0 <= i < n ==> #[trigger] self.takes_sample(
                voice_count,
                events,
                controls,
                output_gain,
                left,
                right,
                i,
            )
    }

    /// In sample `i` of the course the events that are due follow one another,
    /// as far as they come next, and then the sample is rendered.
    pub open spec fn takes_sample(
        self,
        voice_count: usize,
        events: Seq<NoteEvent<N>>,
        controls: Seq<SampleControls<N>>,
        output_gain: N,
        left: Seq<N>,
        right: Seq<N>,
        i: int,
    ) -> bool {
        &&& self.cursors[i + 1] == due_end(events, self.cursors[i], i)
        &&& 0 <= self.cursors[i] <= self.cursors[i + 1] <= events.len()
        &&& self.states[i].handled_all(
            self.played[i],
            events.subrange(self.cursors[i], self.cursors[i + 1]),
            voice_count,
        )
        &&& self.played[i].rendered(
            self.states[i + 1],
            controls[i],
            output_gain,
            (left[i], right[i]),
        )
    }
}

/// `post` and the two channels are what the synthesizer makes of a block: the
/// number of voices is taken from the parameter, and the block takes its course.
pub open spec fn is_processed<N: Scalar>(
    pre: SineOne<N>,
    post: SineOne<N>,
    events: Seq<NoteEvent<N>>,
    controls: Seq<SampleControls<N>>,
    output_gain: N,
    left: Seq<N>,
    right: Seq<N>,
) -> bool {
    let voice_count = held_voice_count(pre.params.voices.value);
    exists|start: SineOne<N>, course: BlockCourse<N>|
        {
            &&& #[trigger] pre.resized(start, voice_count)
            &&& #[trigger] course.is_course(
                start,
                voice_count,
                events,
                controls,
                output_gain,
                left,
                right,
                controls.len() as int,
            )
            &&& post == course.states.last()
        }
}

impl<N: Scalar> Default for SineOne<N> {
    fn default() -> (synth: Self)
        ensures
            synth.params.is_default(),
            evaluates(lit(ZERO), synth.sample_rate),
            forall|i: int|
                #![trigger synth.voices@[i]]
                0 <= i < MAX_VOICES ==> synth.voices@[i].is_cleared()
                    && synth.voices@[i].osc.is_zeroed(),
            synth.next_voice_age == 0,
            synth.gain_smoother.is_zeroed(),
            synth.previous_voice_count == 1,
    {
        SineOne {
            params: SineOneParams::default(),
            sample_rate: N::from_bits(ZERO),
            voices: [
                Voice::default(),
                Voice::default(),
                Voice::default(),
                Voice::default(),
                Voice::default(),
                Voice::default(),
                Voice::default(),
                Voice::default(),
            ],
            next_voice_age: 0,
            gain_smoother: LinearSmoother::default(),
            previous_voice_count: 1,
        }
    }
}

impl<N: Scalar> SineOne<N> {
    /// Bring gain and voice count in line with the parameter, at once.
    fn sync_voice_gain(&mut self)
        ensures
            final(self).gain_is_synced(),
            *final(self) == (SineOne {
                gain_smoother: final(self).gain_smoother,
                previous_voice_count: final(self).previous_voice_count,
                ..*old(self)
            }),
    {
        let voice_count: usize = self.params.voices.value as usize;
        self.gain_smoother.set_immediate(voice_gain(voice_count));
        self.previous_voice_count = voice_count;
    }

    /// Take the sample rate. Always succeeds.
    pub fn initialize(&mut self, sample_rate: N) -> (ready: bool)
        ensures
            ready,
            final(self).sample_rate == sample_rate,
            final(self).gain_is_synced(),
            *final(self) == (SineOne {
                sample_rate,
                gain_smoother: final(self).gain_smoother,
                previous_voice_count: final(self).previous_voice_count,
                ..*old(self)
            }),
    {
        self.sample_rate = sample_rate;

        self.sync_voice_gain();

        true
    }

    /// Return to silence.
    pub fn reset(&mut self)
        ensures
            final(self).is_reset(),
            forall|i: int|
                #![trigger final(self).voices@[i]]
                0 <= i < MAX_VOICES ==> final(self).voices@[i].osc.phase_increment == old(
                    self,
                ).voices@[i].osc.phase_increment,
            final(self).params == old(self).params,
            final(self).sample_rate == old(self).sample_rate,
    {
        let mut i: usize = 0;
        while i < MAX_VOICES
            invariant
                i <= MAX_VOICES,
                self.params == old(self).params,
                self.sample_rate == old(self).sample_rate,
                forall|j: int|
                    #![trigger self.voices@[j]]
                    0 <= j < MAX_VOICES ==> self.voices@[j].osc.phase_increment == old(
                        self,
                    ).voices@[j].osc.phase_increment && (j < i ==> self.voices@[j].is_cleared()),
            decreases MAX_VOICES - i,
        {
            self.voices[i].reset();
            i = i + 1;
        }
        self.next_voice_age = 0;
        self.gain_smoother.reset();
        self.sync_voice_gain();
    }

    /// The number of voices that the parameter asks for.
    fn voice_count(&self) -> (voice_count: usize)
        ensures
            voice_count == held_voice_count(self.params.voices.value),
            1 <= voice_count <= MAX_VOICES,
    {
        let value: i32 = self.params.voices.value;
        if value < 0 || value > 8 {
            MAX_VOICES
        } else if value == 0 {
            1
        } else {
            value as usize
        }
    }

    /// Set the number of voices: release those that fall out, and let the gain
    /// ramp to its new compensation.
    pub fn resize(&mut self, voice_count: usize)
        requires
            old(self).is_consistent(),
            1 <= voice_count <= MAX_VOICES,
        ensures
            old(self).resized(*final(self), voice_count),
            final(self).is_consistent(),
    {
        if voice_count != self.previous_voice_count {
            let last: usize = self.previous_voice_count;
            let mut i: usize = voice_count;
            while i < last
                invariant
                    voice_count <= i,
                    last == old(self).previous_voice_count,
                    last <= MAX_VOICES,
                    *self == (SineOne { voices: self.voices, ..*old(self) }),
                    forall|j: int|
                        #![trigger self.voices@[j]]
                        0 <= j < MAX_VOICES ==> if voice_count <= j < i && j < last && old(
                            self,
                        ).voices@[j].env.state != EnvState::Idle {
                            old(self).voices@[j].ended(
                                self.voices@[j],
                                self.params.release.value,
                                self.sample_rate,
                            )
                        } else {
                            self.voices@[j] == old(self).voices@[j]
                        },
                decreases last - i,
            {
                if !self.voices[i].is_idle() {
                    self.voices[i].note_off(self.params.release.value, self.sample_rate);
                }
                i = i + 1;
            }
            self.previous_voice_count = voice_count;

            let target_gain = voice_gain(voice_count);
            let n: u32 = ramp_samples(GAIN_RAMP_SECS, self.sample_rate);
            self.gain_smoother.set_target(target_gain, n);
        }
    }

    /// Find the first voice that holds the note.
    fn find_playing(&self, note: u8) -> (found: Option<usize>)
        ensures
            match found {
                Some(idx) => is_first_playing(self.voices@, note, idx as int),
                None => !any_accepted(self.voices@, VoiceFilter::Playing(note)),
            },
    {
        let mut i: usize = 0;
        while i < MAX_VOICES
            invariant
                i <= MAX_VOICES,
                forall|j: int| 0 <= j < i ==> (#[trigger] self.voices@[j]).note != Some(note),
            decreases MAX_VOICES - i,
        {
            if VoiceFilter::Playing(note).matches(&self.voices[i]) {
                return Some(i);
            }
            i = i + 1;
        }
        None
    }

    /// Play one event, with notes on the first `voice_count` voices.
    pub fn handle_event(&mut self, event: NoteEvent<N>, voice_count: usize)
        requires
            1 <= voice_count <= MAX_VOICES,
            event is NoteOn ==> old(self).next_voice_age < u64::MAX,
        ensures
            old(self).handled(*final(self), event, voice_count),
    {
        proof {
            reveal_with_fuel(evaluates, 4);
        }
        match event {
            NoteEvent::NoteOn { timing, note, velocity, base_freq } => {
                let idx: usize = allocate_voice(&self.voices, voice_count);
                let start_phase_normalized = self.params.start_phase.value.over(
                    N::from_bits(FULL_CIRCLE),
                ).remainder(N::from_bits(ONE));
                assert(evaluates(old(self).start_phase_in_cycles(), start_phase_normalized));

                self.next_voice_age = self.next_voice_age + 1;
                self.voices[idx].note_on(
                    NoteOnParams {
                        note,
                        velocity,
                        base_freq,
                        start_phase_normalized,
                        sample_rate: self.sample_rate,
                        attack_ms: self.params.attack.value,
                        age: self.next_voice_age,
                    },
                );
            },
            NoteEvent::NoteOff { timing, note } => {
                // All voices, also those beyond the count: they may still hold
                // the note.
                assert(self.voices@.take(MAX_VOICES as int) =~= self.voices@);
                let target = find_oldest(&self.voices, MAX_VOICES, VoiceFilter::Playing(note));
                if let Some(idx) = target {
                    self.voices[idx].note_off(self.params.release.value, self.sample_rate);
                }
            },
            NoteEvent::PolyPan { timing, note, pan } => {
                if voice_count == 1 {
                    // The pan may come before its note: take it whatever the note.
                    self.voices[0].set_pan(pan, self.sample_rate);
                } else if let Some(idx) = self.find_playing(note) {
                    self.voices[idx].set_pan(pan, self.sample_rate);
                }
            },
            NoteEvent::Other { timing } => {},
        }
    }

    /// Render one stereo sample: the sum of the voices that are not idle, scaled
    /// by the gain compensation and `output_gain`.
    pub fn render_sample(&mut self, controls: SampleControls<N>, output_gain: N) -> (out: (N, N))
        ensures
            old(self).rendered(*final(self), controls, output_gain, out),
    {
        proof {
            reveal_with_fuel(evaluates, 3);
        }
        let gain = self.gain_smoother.next_sample();

        let mut left_sum = N::from_bits(ZERO);
        let mut right_sum = N::from_bits(ZERO);
        let ghost mut lefts: Seq<N> = Seq::empty();
        let ghost mut rights: Seq<N> = Seq::empty();
        let mut i: usize = 0;
        while i < MAX_VOICES
            invariant
                i <= MAX_VOICES,
                lefts.len() == i,
                rights.len() == i,
                *self == (SineOne {
                    voices: self.voices,
                    gain_smoother: self.gain_smoother,
                    ..*old(self)
                }),
                old(self).gain_smoother.advanced(self.gain_smoother, gain),
                forall|j: int|
                    #![trigger self.voices@[j]]
                    0 <= j < MAX_VOICES ==> if j >= i || old(self).voices@[j].env.state
                        == EnvState::Idle {
                        self.voices@[j] == old(self).voices@[j]
                    } else {
                        old(self).voices@[j].rendered(
                            self.voices@[j],
                            controls.fine_tune_cents,
                            controls.fold,
                            controls.lpg_depth,
                            controls.lpg_cutoff_hz,
                            controls.lpg_resonance,
                            self.sample_rate,
                            (lefts[j], rights[j]),
                        )
                    },
                evaluates(active_sum(old(self).voices@, lefts, i as nat), left_sum),
                evaluates(active_sum(old(self).voices@, rights, i as nat), right_sum),
            decreases MAX_VOICES - i,
        {
            let ghost voices = old(self).voices@;
            let ghost before = (lefts, rights);
            if !self.voices[i].is_idle() {
                let (l, r) = self.voices[i].render_sample(
                    controls.fine_tune_cents,
                    controls.fold,
                    controls.lpg_depth,
                    controls.lpg_cutoff_hz,
                    controls.lpg_resonance,
                    self.sample_rate,
                );
                left_sum = left_sum.plus(l);
                right_sum = right_sum.plus(r);
                proof {
                    lefts = lefts.push(l);
                    rights = rights.push(r);
                }
            } else {
                proof {
                    lefts = lefts.push(left_sum);
                    rights = rights.push(right_sum);
                }
            }
            proof {
                lemma_sum_ignores_later(voices, before.0, lefts, i as nat);
                lemma_sum_ignores_later(voices, before.1, rights, i as nat);
                reveal_with_fuel(evaluates, 3);
            }
            i = i + 1;
        }

        let combined_gain = gain.times(output_gain);
        let out = (left_sum.times(combined_gain), right_sum.times(combined_gain));
        assert(old(self).mixed(*self, controls, output_gain, gain, lefts, rights, out));
        out
    }
}

impl<N: Scalar> SineOne<N> {
    /// Process a block: one stereo sample for each entry of `controls`, with the
    /// events played at the samples at which they are due.
    ///
    /// Events are taken in order. One that is not due holds up those behind it;
    /// what is left at the end of the block is not played.
    pub fn process(
        &mut self,
        events: &[NoteEvent<N>],
        controls: &[SampleControls<N>],
        output_gain: N,
        left: &mut [N],
        right: &mut [N],
    )
        requires
            old(self).is_consistent(),
            old(self).next_voice_age + events@.len() <= u64::MAX,
            controls@.len() <= u32::MAX,
            old(left)@.len() == controls@.len(),
            old(right)@.len() == controls@.len(),
        ensures
            final(left)@.len() == controls@.len(),
            final(right)@.len() == controls@.len(),
            is_processed(
                *old(self),
                *final(self),
                events@,
                controls@,
                output_gain,
                final(left)@,
                final(right)@,
            ),
            final(self).is_consistent(),
    {
        let voice_count: usize = self.voice_count();
        self.resize(voice_count);
        let ghost start = *self;
        let ghost mut course = BlockCourse {
            states: seq![*self],
            played: Seq::empty(),
            cursors: seq![0int],
        };

        let mut next_event: usize = 0;
        let mut sample_idx: usize = 0;
        while sample_idx < controls.len()
            invariant
                sample_idx <= controls@.len() <= u32::MAX,
                1 <= voice_count <= MAX_VOICES,
                left@.len() == controls@.len(),
                right@.len() == controls@.len(),
                next_event <= events@.len(),
                self.is_consistent(),
                self.next_voice_age + (events@.len() - next_event) <= u64::MAX,
                course.is_course(
                    start,
                    voice_count,
                    events@,
                    controls@,
                    output_gain,
                    left@,
                    right@,
                    sample_idx as int,
                ),
                course.states.last() == *self,
                course.cursors.last() == next_event,
            decreases controls@.len() - sample_idx,
        {
            let ghost before = *self;
            let ghost first = next_event;
            while next_event < events.len() && events[next_event].timing() == sample_idx as u32
                invariant
                    sample_idx < controls@.len() <= u32::MAX,
                    1 <= voice_count <= MAX_VOICES,
                    first <= next_event <= events@.len(),
                    self.is_consistent(),
                    self.next_voice_age + (events@.len() - next_event) <= u64::MAX,
                    before.handled_all(
                        *self,
                        events@.subrange(first as int, next_event as int),
                        voice_count,
                    ),
                    due_end(events@, first as int, sample_idx as int) == due_end(
                        events@,
                        next_event as int,
                        sample_idx as int,
                    ),
                decreases events@.len() - next_event,
            {
                let ghost mid = *self;
                self.handle_event(events[next_event], voice_count);
                proof {
                    let done = events@.subrange(first as int, next_event + 1);
                    assert(done.drop_last() =~= events@.subrange(first as int, next_event as int));
                    assert(done.last() == events@[next_event as int]);
                    assert(mid.handled(*self, done.last(), voice_count));
                }
                next_event = next_event + 1;
            }
            let ghost played = *self;

            let (l, r) = self.render_sample(controls[sample_idx], output_gain);
            let ghost old_course = course;
            let ghost lefts = left@;
            let ghost rights = right@;
            left[sample_idx] = l;
            right[sample_idx] = r;
            proof {
                course = BlockCourse {
                    states: course.states.push(*self),
                    played: course.played.push(played),
                    cursors: course.cursors.push(next_event as int),
                };
                assert forall|i: int| 0 <= i < sample_idx + 1 implies #[trigger] course.takes_sample(
                    voice_count,
                    events@,
                    controls@,
                    output_gain,
                    left@,
                    right@,
                    i,
                ) by {
                    if i < sample_idx {
                        assert(old_course.takes_sample(
                            voice_count,
                            events@,
                            controls@,
                            output_gain,
                            lefts,
                            rights,
                            i,
                        ));
                    }
                }
            }
            sample_idx = sample_idx + 1;
        }
        assert(old(self).resized(start, voice_count));
    }
}

/// The sum of the first samples does not depend on the later ones.
proof fn lemma_sum_ignores_later<N>(
    voices: Seq<Voice<N>>,
    samples: Seq<N>,
    others: Seq<N>,
    n: nat,
)
    requires
        n <= samples.len(),
        n <= others.len(),
        forall|i: int| 0 <= i < n ==> samples[i] == others[i],
    ensures
        active_sum(voices, samples, n) == active_sum(voices, others, n),
    decreases n,
{
    if n > 0 {
        lemma_sum_ignores_later(voices, samples, others, (n - 1) as nat);
    }
}

} // verus!
