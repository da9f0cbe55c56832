//! What holds of the synthesizer as a whole.

use vstd::prelude::*;

use crate::dsp::envelope::{ArEnvelope, EnvState};
use crate::dsp::smoother::{
    law_ramp_ends_at_target, law_ramp_follows_line, law_rest_is_constant, lemma_line_is_bounded,
    LinearSmoother,
};
use crate::dsp::svf::SvfFilter;
use crate::dsp::voice::{
    any_accepted, is_allocated, is_bypass, is_oldest, law_agreeing_voices_begin_alike,
    law_agreeing_voices_end_alike, law_agreeing_voices_pan_alike, law_agreeing_voices_sound_alike,
    law_cleared_voices_agree, law_resting_pan_gains_agree, law_zero_depth_hears_no_filter,
    NoteOnParams, Voice, VoiceFilter, MAX_VOICES,
};
use crate::formula::{count, evaluates, law_formula_has_one_value, lit, val};
use crate::plugin::{
    active_sum, compensation, due_end, held_voice_count, is_first_playing, is_processed,
    BlockCourse, NoteEvent, SampleControls, SineOne,
};
use crate::reading::{lemma_product_is_bounded, Reading};
use crate::scalar::{is_finite, is_zero, repeatable, zero_annihilates, Scalar, ZERO};

verus! {

/// One step of the synthesizer leads from `pre` to `post`: an event or a sample,
/// with the voices of the current block.
pub open spec fn is_step<N: Scalar>(pre: SineOne<N>, post: SineOne<N>) -> bool {
    ||| exists|event: NoteEvent<N>| #[trigger]
        pre.handled(post, event, pre.previous_voice_count)
    ||| exists|controls: SampleControls<N>, output_gain: N, out: (N, N)| #[trigger]
        pre.rendered(post, controls, output_gain, out)
}

impl<N: Scalar> SineOne<N> {
    /// No voice sounds.
    pub open spec fn is_silent(self) -> bool {
        forall|i: int|
            0 <= i < MAX_VOICES ==> (#[trigger] self.voices@[i]).env.state == EnvState::Idle
    }

    /// No age is ahead of the counter, and no two voices that have an age are of
    /// the same.
    pub open spec fn ages_are_distinct(self) -> bool {
        &&& forall|i: int|
            0 <= i < MAX_VOICES ==> (#[trigger] self.voices@[i]).age <= self.next_voice_age
        &&& forall|i: int, j: int|
            0 <= i < MAX_VOICES && 0 <= j < MAX_VOICES && i != j && (#[trigger] self.voices@[i]).age
                == (#[trigger] self.voices@[j]).age ==> self.voices@[i].age == 0
    }

    /// Every voice holds a note exactly while it is in the attack.
    pub open spec fn notes_are_held_in_attack(self) -> bool {
        forall|i: int|
            0 <= i < MAX_VOICES ==> (#[trigger] self.voices@[i]).holds_note_in_attack()
    }

    /// No voice beyond the current number of voices is in the attack.
    pub open spec fn attacks_within_count(self) -> bool {
        forall|i: int|
            self.previous_voice_count <= i < MAX_VOICES ==> (#[trigger] self.voices@[i]).env.state
                != EnvState::Attack
    }

    /// What every block keeps.
    pub open spec fn is_orderly(self) -> bool {
        &&& self.ages_are_distinct()
        &&& self.notes_are_held_in_attack()
        &&& self.attacks_within_count()
    }
}

/// A synthesizer whose voices are cleared is silent and orderly.
pub proof fn law_cleared_is_orderly<N: Scalar>(synth: SineOne<N>)
    requires
        forall|i: int|
            0 <= i < MAX_VOICES ==> (#[trigger] synth.voices@[i]).is_cleared(),
    ensures
        synth.is_silent(),
        synth.is_orderly(),
{
}

/// An event or a sample changes neither parameters nor sample rate nor the
/// number of voices, and keeps the synthesizer orderly: the ages stay distinct,
/// notes are held in the attack only, and only within the number of voices.
pub proof fn law_step_is_orderly<N: Scalar>(pre: SineOne<N>, post: SineOne<N>)
    requires
        is_step(pre, post),
        1 <= pre.previous_voice_count <= MAX_VOICES,
    ensures
        post.params == pre.params,
        post.sample_rate == pre.sample_rate,
        post.previous_voice_count == pre.previous_voice_count,
        pre.is_orderly() ==> post.is_orderly(),
{
    let count = pre.previous_voice_count;
    if exists|event: NoteEvent<N>| #[trigger] pre.handled(post, event, count) {
        let event = choose|event: NoteEvent<N>| #[trigger] pre.handled(post, event, count);
        lemma_event_is_orderly(pre, post, event);
    } else {
        let (controls, output_gain, out) = choose|
            controls: SampleControls<N>,
            output_gain: N,
            out: (N, N),
        | #[trigger]
            pre.rendered(post, controls, output_gain, out);
        lemma_sample_is_orderly(pre, post, controls, output_gain, out);
    }
}

proof fn lemma_event_is_orderly<N: Scalar>(
    pre: SineOne<N>,
    post: SineOne<N>,
    event: NoteEvent<N>,
)
    requires
        pre.handled(post, event, pre.previous_voice_count),
        1 <= pre.previous_voice_count <= MAX_VOICES,
    ensures
        post.params == pre.params,
        post.sample_rate == pre.sample_rate,
        post.previous_voice_count == pre.previous_voice_count,
        pre.is_orderly() ==> post.is_orderly(),
{
    match event {
        NoteEvent::NoteOn { timing, note, velocity, base_freq } => {
            let scope = pre.voices@.take(pre.previous_voice_count as int);
            let (idx, start) = choose|idx: int, start: N|
                {
                    &&& #[trigger] is_allocated(scope, idx)
                    &&& #[trigger] evaluates(pre.start_phase_in_cycles(), start)
                    &&& (SineOne { next_voice_age: post.next_voice_age, ..pre }).changed_at(
                        post,
                        idx,
                    )
                    &&& pre.voices@[idx].begun(
                        post.voices@[idx],
                        pre.note_params(note, velocity, base_freq, start),
                    )
                };
            assert(0 <= idx < pre.previous_voice_count);
            if pre.is_orderly() {
                assert forall|i: int| 0 <= i < MAX_VOICES implies (#[trigger] post.voices@[i]).age
                    <= post.next_voice_age by {
                    if i != idx {
                        assert(post.voices@[i] == pre.voices@[i]);
                    }
                }
                assert forall|i: int, j: int|
                    0 <= i < MAX_VOICES && 0 <= j < MAX_VOICES && i != j && (
                    #[trigger] post.voices@[i]).age == (
                    #[trigger] post.voices@[j]).age implies post.voices@[i].age == 0 by {
                    if i != idx {
                        assert(post.voices@[i] == pre.voices@[i]);
                    }
                    if j != idx {
                        assert(post.voices@[j] == pre.voices@[j]);
                    }
                }
            }
        },
        NoteEvent::NoteOff { timing, note } => {
            if any_accepted(pre.voices@, VoiceFilter::Playing(note)) {
                let idx = choose|idx: int|
                    {
                        &&& #[trigger] is_oldest(pre.voices@, VoiceFilter::Playing(note), idx)
                        &&& pre.changed_at(post, idx)
                        &&& pre.voices@[idx].ended(
                            post.voices@[idx],
                            pre.params.release.value,
                            pre.sample_rate,
                        )
                    };
                assert forall|i: int| 0 <= i < MAX_VOICES implies ((#[trigger] post.voices@[i]).age
                    == pre.voices@[i].age || post.voices@[i].age == 0) && (
                post.voices@[i].env.state == EnvState::Attack ==> pre.voices@[i].env.state
                    == EnvState::Attack) by {
                    if i != idx {
                        assert(post.voices@[i] == pre.voices@[i]);
                    }
                }
            }
        },
        NoteEvent::PolyPan { timing, note, pan } => {
            if pre.previous_voice_count == 1 {
                assert forall|i: int| 0 <= i < MAX_VOICES implies (#[trigger] post.voices@[i]).age
                    == pre.voices@[i].age && post.voices@[i].env == pre.voices@[i].env
                    && post.voices@[i].note == pre.voices@[i].note by {
                    if i != 0 {
                        assert(post.voices@[i] == pre.voices@[i]);
                    }
                }
            } else if any_accepted(pre.voices@, VoiceFilter::Playing(note)) {
                let idx = choose|idx: int|
                    {
                        &&& #[trigger] is_first_playing(pre.voices@, note, idx)
                        &&& pre.changed_at(post, idx)
                        &&& pre.voices@[idx].panned_to(post.voices@[idx], pan, pre.sample_rate)
                    };
                assert forall|i: int| 0 <= i < MAX_VOICES implies (#[trigger] post.voices@[i]).age
                    == pre.voices@[i].age && post.voices@[i].env == pre.voices@[i].env
                    && post.voices@[i].note == pre.voices@[i].note by {
                    if i != idx {
                        assert(post.voices@[i] == pre.voices@[i]);
                    }
                }
            }
        },
        NoteEvent::Other { timing } => {},
    }
}

proof fn lemma_sample_is_orderly<N: Scalar>(
    pre: SineOne<N>,
    post: SineOne<N>,
    controls: SampleControls<N>,
    output_gain: N,
    out: (N, N),
)
    requires
        pre.rendered(post, controls, output_gain, out),
    ensures
        post.params == pre.params,
        post.sample_rate == pre.sample_rate,
        post.previous_voice_count == pre.previous_voice_count,
        post.next_voice_age == pre.next_voice_age,
        pre.is_orderly() ==> post.is_orderly(),
{
    assert forall|i: int| 0 <= i < MAX_VOICES implies ((#[trigger] post.voices@[i]).age
        == pre.voices@[i].age || post.voices@[i].age == 0) && post.voices@[i].note
        == pre.voices@[i].note && (
    post.voices@[i].env.state == EnvState::Attack <==> pre.voices@[i].env.state
        == EnvState::Attack) by {}
}

/// When the number of voices shrinks, the voices that fall out let go of their
/// notes and none of them stays in the attack; those within the new number are
/// untouched; and the synthesizer stays orderly.
pub proof fn law_shrinking_releases_voices<N: Scalar>(
    pre: SineOne<N>,
    post: SineOne<N>,
    voice_count: usize,
)
    requires
        pre.resized(post, voice_count),
        pre.is_consistent(),
        1 <= voice_count <= MAX_VOICES,
    ensures
        post.previous_voice_count == voice_count,
        post.params == pre.params,
        post.sample_rate == pre.sample_rate,
        post.next_voice_age == pre.next_voice_age,
        forall|i: int|
            0 <= i < voice_count ==> #[trigger] post.voices@[i] == pre.voices@[i],
        forall|i: int|
            voice_count <= i < pre.previous_voice_count ==> (#[trigger] post.voices@[i]).env.state
                != EnvState::Attack,
        pre.is_orderly() ==> post.is_orderly(),
{
    if voice_count != pre.previous_voice_count {
        assert forall|i: int| 0 <= i < MAX_VOICES implies ((#[trigger] post.voices@[i]).age
            == pre.voices@[i].age || post.voices@[i].age == 0) && (
        pre.voices@[i].holds_note_in_attack() ==> post.voices@[i].holds_note_in_attack()) && (
        post.voices@[i].env.state == EnvState::Attack ==> pre.voices@[i].env.state
            == EnvState::Attack) by {}
    }
}

/// A block keeps parameters, sample rate and order, and leaves the number of
/// voices that the parameter asks for.
pub proof fn law_block_is_orderly<N: Scalar>(
    pre: SineOne<N>,
    post: SineOne<N>,
    events: Seq<NoteEvent<N>>,
    controls: Seq<SampleControls<N>>,
    output_gain: N,
    left: Seq<N>,
    right: Seq<N>,
)
    requires
        is_processed(pre, post, events, controls, output_gain, left, right),
        pre.is_consistent(),
        pre.is_orderly(),
    ensures
        post.params == pre.params,
        post.sample_rate == pre.sample_rate,
        post.previous_voice_count == held_voice_count(pre.params.voices.value),
        post.is_orderly(),
{
    let voice_count = held_voice_count(pre.params.voices.value);
    let n = controls.len() as int;
    let (start, course) = choose|start: SineOne<N>, course: BlockCourse<N>|
        {
            &&& #[trigger] pre.resized(start, voice_count)
            &&& #[trigger] course.is_course(
                start,
                voice_count,
                events,
                controls,
                output_gain,
                left,
                right,
                n,
            )
            &&& post == course.states.last()
        };
    law_shrinking_releases_voices(pre, start, voice_count);
    lemma_course_is_orderly(course, start, events, controls, output_gain, left, right, n, n);
}

proof fn lemma_events_are_orderly<N: Scalar>(
    pre: SineOne<N>,
    post: SineOne<N>,
    events: Seq<NoteEvent<N>>,
)
    requires
        pre.handled_all(post, events, pre.previous_voice_count),
        1 <= pre.previous_voice_count <= MAX_VOICES,
        pre.is_orderly(),
    ensures
        post.params == pre.params,
        post.sample_rate == pre.sample_rate,
        post.previous_voice_count == pre.previous_voice_count,
        post.is_orderly(),
    decreases events.len(),
{
    if events.len() > 0 {
        let count = pre.previous_voice_count;
        let mid = choose|mid: SineOne<N>|
            {
                &&& pre.handled_all(mid, events.drop_last(), count)
                &&& #[trigger] mid.handled(post, events.last(), count)
            };
        lemma_events_are_orderly(pre, mid, events.drop_last());
        lemma_event_is_orderly(mid, post, events.last());
    }
}

proof fn lemma_course_is_orderly<N: Scalar>(
    course: BlockCourse<N>,
    start: SineOne<N>,
    events: Seq<NoteEvent<N>>,
    controls: Seq<SampleControls<N>>,
    output_gain: N,
    left: Seq<N>,
    right: Seq<N>,
    n: int,
    i: int,
)
    requires
        course.is_course(
            start,
            start.previous_voice_count,
            events,
            controls,
            output_gain,
            left,
            right,
            n,
        ),
        1 <= start.previous_voice_count <= MAX_VOICES,
        start.is_orderly(),
        0 <= i <= n,
    ensures
        course.states[i].params == start.params,
        course.states[i].sample_rate == start.sample_rate,
        course.states[i].previous_voice_count == start.previous_voice_count,
        course.states[i].is_orderly(),
    decreases i,
{
    if i > 0 {
        let k = i - 1;
        lemma_course_is_orderly(course, start, events, controls, output_gain, left, right, n, k);
        assert(course.takes_sample(
            start.previous_voice_count,
            events,
            controls,
            output_gain,
            left,
            right,
            k,
        ));
        lemma_events_are_orderly(
            course.states[k],
            course.played[k],
            events.subrange(course.cursors[k], course.cursors[k + 1]),
        );
        lemma_sample_is_orderly(
            course.played[k],
            course.states[k + 1],
            controls[k],
            output_gain,
            (left[k], right[k]),
        );
    }
}

/// `out` is silence as the mix gives it: 0.0 times the gain and the output gain.
pub open spec fn is_silence_scaled_by<N: Scalar>(out: N, gain: N, output_gain: N) -> bool {
    evaluates(lit(ZERO).times(val(gain).times(val(output_gain))), out)
}

/// `out` is silence as the mix gives it, with some gain.
pub open spec fn is_scaled_silence<N: Scalar>(out: N, output_gain: N) -> bool {
    exists|gain: N| #[trigger] is_silence_scaled_by(out, gain, output_gain)
}

/// Before any note the synthesizer is silent: a block that begins in silence
/// and in which no key goes down ends in silence, and both channels are 0.0
/// times the gain in every sample, whatever else happens.
pub proof fn law_silence_before_note_on<N: Scalar>(
    pre: SineOne<N>,
    post: SineOne<N>,
    events: Seq<NoteEvent<N>>,
    controls: Seq<SampleControls<N>>,
    output_gain: N,
    left: Seq<N>,
    right: Seq<N>,
    i: int,
)
    requires
        is_processed(pre, post, events, controls, output_gain, left, right),
        pre.is_silent(),
        forall|k: int| 0 <= k < events.len() ==> !(#[trigger] events[k] is NoteOn),
        0 <= i < controls.len(),
    ensures
        post.is_silent(),
        is_scaled_silence(left[i], output_gain),
        is_scaled_silence(right[i], output_gain),
{
    let voice_count = held_voice_count(pre.params.voices.value);
    let n = controls.len() as int;
    let (start, course) = choose|start: SineOne<N>, course: BlockCourse<N>|
        {
            &&& #[trigger] pre.resized(start, voice_count)
            &&& #[trigger] course.is_course(
                start,
                voice_count,
                events,
                controls,
                output_gain,
                left,
                right,
                n,
            )
            &&& post == course.states.last()
        };
    let gains = lemma_course_is_silent(
        course,
        start,
        voice_count,
        events,
        controls,
        output_gain,
        left,
        right,
        n,
        n,
    );
    assert(is_silence_scaled_by(left[i], gains.1[i], output_gain));
    assert(is_silence_scaled_by(right[i], gains.1[i], output_gain));
}

proof fn lemma_events_are_silent<N: Scalar>(
    pre: SineOne<N>,
    post: SineOne<N>,
    events: Seq<NoteEvent<N>>,
    voice_count: usize,
)
    requires
        pre.handled_all(post, events, voice_count),
        pre.is_silent(),
        forall|k: int| 0 <= k < events.len() ==> !(#[trigger] events[k] is NoteOn),
    ensures
        post.is_silent(),
        post.gain_smoother == pre.gain_smoother,
    decreases events.len(),
{
    if events.len() > 0 {
        let mid = choose|mid: SineOne<N>|
            {
                &&& pre.handled_all(mid, events.drop_last(), voice_count)
                &&& #[trigger] mid.handled(post, events.last(), voice_count)
            };
        assert(!(events[events.len() - 1] is NoteOn));
        assert forall|k: int| 0 <= k < events.drop_last().len() implies !(
        #[trigger] events.drop_last()[k] is NoteOn) by {
            assert(!(events[k] is NoteOn));
        }
        lemma_events_are_silent(pre, mid, events.drop_last(), voice_count);
        assert forall|i: int| 0 <= i < MAX_VOICES implies (#[trigger] post.voices@[i]).env.state
            == EnvState::Idle by {
            assert(mid.voices@[i].env.state == EnvState::Idle);
        }
    }
}

/// In silence the course hands out 0.0 times the gains of the smoother, which are
/// `gains.1` by way of the smoothers `gains.0`.
proof fn lemma_course_is_silent<N: Scalar>(
    course: BlockCourse<N>,
    start: SineOne<N>,
    voice_count: usize,
    events: Seq<NoteEvent<N>>,
    controls: Seq<SampleControls<N>>,
    output_gain: N,
    left: Seq<N>,
    right: Seq<N>,
    n: int,
    i: int,
) -> (gains: (Seq<LinearSmoother<N>>, Seq<N>))
    requires
        course.is_course(start, voice_count, events, controls, output_gain, left, right, n),
        start.is_silent(),
        forall|k: int| 0 <= k < events.len() ==> !(#[trigger] events[k] is NoteOn),
        0 <= i <= n,
    ensures
        course.states[i].is_silent(),
        LinearSmoother::runs(gains.0, gains.1),
        gains.1.len() == i,
        gains.0[0] == start.gain_smoother,
        gains.0[i] == course.states[i].gain_smoother,
        forall|k: int|
            0 <= k < i ==> is_silence_scaled_by(left[k], #[trigger] gains.1[k], output_gain),
        forall|k: int|
            0 <= k < i ==> is_silence_scaled_by(right[k], #[trigger] gains.1[k], output_gain),
    decreases i,
{
    if i > 0 {
        let k = i - 1;
        let before = lemma_course_is_silent(
            course,
            start,
            voice_count,
            events,
            controls,
            output_gain,
            left,
            right,
            n,
            k,
        );
        assert(course.takes_sample(
            voice_count,
            events,
            controls,
            output_gain,
            left,
            right,
            k,
        ));
        lemma_events_are_silent(
            course.states[k],
            course.played[k],
            events.subrange(course.cursors[k], course.cursors[k + 1]),
            voice_count,
        );
        let played = course.played[k];
        let (gain, lefts, rights) = choose|gain: N, lefts: Seq<N>, rights: Seq<N>| #[trigger]
            played.mixed(
                course.states[k + 1],
                controls[k],
                output_gain,
                gain,
                lefts,
                rights,
                (left[k], right[k]),
            );
        lemma_silent_sum(played, lefts, MAX_VOICES as nat);
        lemma_silent_sum(played, rights, MAX_VOICES as nat);
        let gains = (before.0.push(course.states[i].gain_smoother), before.1.push(gain));
        assert forall|j: int| 0 <= j < gains.1.len() implies gains.0[j].advanced(
            gains.0[j + 1],
            #[trigger] gains.1[j],
        ) by {
            if j < k {
                assert(before.0[j].advanced(before.0[j + 1], before.1[j]));
            }
        }
        assert forall|j: int| 0 <= j < i implies is_silence_scaled_by(
            left[j],
            #[trigger] gains.1[j],
            output_gain,
        ) && is_silence_scaled_by(right[j], gains.1[j], output_gain) by {
            if j < k {
                assert(is_silence_scaled_by(left[j], before.1[j], output_gain));
                assert(is_silence_scaled_by(right[j], before.1[j], output_gain));
            }
        }
        gains
    } else {
        (seq![start.gain_smoother], seq![])
    }
}

/// Every gain that the smoother hands out from here is finite once it is multiplied
/// by the output gain.
pub open spec fn gains_are_finite<N: Scalar>(smoother: LinearSmoother<N>, output_gain: N) -> bool {
    forall|trace: Seq<LinearSmoother<N>>, gains: Seq<N>, i: int, scaled: N|
        #[trigger] LinearSmoother::runs(trace, gains) && trace[0] == smoother && 0 <= i
            < gains.len() && #[trigger] evaluates(val(gains[i]).times(val(output_gain)), scaled)
            ==> is_finite(scaled)
}

/// Silence is 0.0: where the gains are finite, both channels of a block that begins
/// in silence and in which no key goes down are 0.0 in every sample.
pub proof fn law_silence_is_zero<N: Scalar>(
    pre: SineOne<N>,
    post: SineOne<N>,
    events: Seq<NoteEvent<N>>,
    controls: Seq<SampleControls<N>>,
    output_gain: N,
    left: Seq<N>,
    right: Seq<N>,
    i: int,
)
    requires
        zero_annihilates::<N>(),
        is_processed(pre, post, events, controls, output_gain, left, right),
        pre.is_silent(),
        forall|k: int| 0 <= k < events.len() ==> !(#[trigger] events[k] is NoteOn),
        forall|start: SineOne<N>| #[trigger]
            pre.resized(start, held_voice_count(pre.params.voices.value)) ==> gains_are_finite(
                start.gain_smoother,
                output_gain,
            ),
        0 <= i < controls.len(),
    ensures
        is_zero(left[i]),
        is_zero(right[i]),
{
    let voice_count = held_voice_count(pre.params.voices.value);
    let n = controls.len() as int;
    let (start, course) = choose|start: SineOne<N>, course: BlockCourse<N>|
        {
            &&& #[trigger] pre.resized(start, voice_count)
            &&& #[trigger] course.is_course(
                start,
                voice_count,
                events,
                controls,
                output_gain,
                left,
                right,
                n,
            )
            &&& post == course.states.last()
        };
    let gains = lemma_course_is_silent(
        course,
        start,
        voice_count,
        events,
        controls,
        output_gain,
        left,
        right,
        n,
        n,
    );
    let gain = gains.1[i];
    assert(is_silence_scaled_by(left[i], gain, output_gain));
    assert(is_silence_scaled_by(right[i], gain, output_gain));
    assert(forall|scaled: N| #[trigger]
        evaluates(val(gain).times(val(output_gain)), scaled) ==> is_finite(scaled));
    lemma_scaled_silence_is_zero(left[i], gain, output_gain);
    lemma_scaled_silence_is_zero(right[i], gain, output_gain);
}

/// The gains of a ramp between 0.0 and 1.0 are finite, where what reads as a real
/// within the bound is finite, and the output gain is at most 4.
pub proof fn law_ramped_gains_are_finite<N: Scalar>(
    reading: Reading<N>,
    pre: LinearSmoother<N>,
    target: N,
    ramp_samples: u32,
    smoother: LinearSmoother<N>,
    output_gain: N,
)
    requires
        reading.is_accurate(),
        reading.bound >= 16real,
        forall|x: N| reading.covers(reading.of(x)) ==> #[trigger] is_finite(x),
        ramp_samples as real <= reading.bound,
        forall|n: N| #[trigger]
            evaluates(count(ramp_samples as usize), n) ==> reading.of(n) == ramp_samples as real,
        reading.error <= 1real,
        3real * (ramp_samples as real * reading.error) <= 1real,
        0real <= reading.of(pre.current) <= 1real,
        0real <= reading.of(target) <= 1real,
        0real <= reading.of(output_gain) <= 4real,
        pre.retargeted(smoother, target, ramp_samples),
    ensures
        gains_are_finite(smoother, output_gain),
{
    assert forall|trace: Seq<LinearSmoother<N>>, gains: Seq<N>, i: int, scaled: N|
        #[trigger] LinearSmoother::runs(trace, gains) && trace[0] == smoother && 0 <= i
            < gains.len() && #[trigger] evaluates(
            val(gains[i]).times(val(output_gain)),
            scaled,
        ) implies is_finite(scaled) by {
        let (gain, u) = (reading.of(gains[i]), reading.error);
        assert(trace[i].advanced(trace[i + 1], gains[i]));
        if i + 1 < ramp_samples {
            let k = (i + 1) as nat;
            law_ramp_follows_line(reading, pre, target, ramp_samples, trace, gains, k);
            lemma_line_is_bounded(
                reading.of(pre.current),
                reading.of(target),
                k as real,
                ramp_samples as real,
            );
            assert(k as real * u <= ramp_samples as real * u) by (nonlinear_arith)
                requires
                    k as real <= ramp_samples as real,
                    0real <= u,
            ;
        } else {
            law_ramp_ends_at_target(pre, target, ramp_samples, trace, gains, i + 1);
        }
        let (x, y) = choose|x: N, y: N| #[trigger]
            call_ensures(N::times, (x, y), scaled) && evaluates(val(gains[i]), x) && evaluates(
                val(output_gain),
                y,
            );
        lemma_product_is_bounded(gain, reading.of(output_gain), 2real, 4real);
        assert(reading.covers(reading.of(scaled)));
    }
}

proof fn lemma_scaled_silence_is_zero<N: Scalar>(out: N, gain: N, output_gain: N)
    requires
        zero_annihilates::<N>(),
        is_silence_scaled_by(out, gain, output_gain),
        forall|scaled: N| #[trigger]
            evaluates(val(gain).times(val(output_gain)), scaled) ==> is_finite(scaled),
    ensures
        is_zero(out),
{
    let (zero, scaled) = choose|zero: N, scaled: N| #[trigger]
        call_ensures(N::times, (zero, scaled), out) && evaluates(lit(ZERO), zero) && evaluates(
            val(gain).times(val(output_gain)),
            scaled,
        );
    assert(call_ensures(N::times, (zero, scaled), out));
}

/// A synthesizer that is as a reset leaves it hands out 0.0 until a key goes down,
/// where the compensation for its voices times the output gain is finite.
pub proof fn law_reset_hands_out_zero<N: Scalar>(
    pre: SineOne<N>,
    post: SineOne<N>,
    events: Seq<NoteEvent<N>>,
    controls: Seq<SampleControls<N>>,
    output_gain: N,
    left: Seq<N>,
    right: Seq<N>,
    i: int,
)
    requires
        zero_annihilates::<N>(),
        is_processed(pre, post, events, controls, output_gain, left, right),
        pre.is_silent(),
        pre.gain_is_synced(),
        1 <= pre.params.voices.value <= MAX_VOICES,
        forall|k: int| 0 <= k < events.len() ==> !(#[trigger] events[k] is NoteOn),
        forall|gain: N, scaled: N| #[trigger]
            evaluates(compensation(pre.previous_voice_count), gain) && #[trigger] evaluates(
                val(gain).times(val(output_gain)),
                scaled,
            ) ==> is_finite(scaled),
        0 <= i < controls.len(),
    ensures
        is_zero(left[i]),
        is_zero(right[i]),
{
    let rest = choose|gain: N| #[trigger]
        pre.gain_smoother.rests_at(gain) && evaluates(
            compensation(pre.previous_voice_count),
            gain,
        );
    assert forall|trace: Seq<LinearSmoother<N>>, gains: Seq<N>, k: int, scaled: N|
        #[trigger] LinearSmoother::runs(trace, gains) && trace[0] == pre.gain_smoother && 0 <= k
            < gains.len() && #[trigger] evaluates(
            val(gains[k]).times(val(output_gain)),
            scaled,
        ) implies is_finite(scaled) by {
        law_rest_is_constant(rest, trace, gains, k);
    }
    assert(gains_are_finite(pre.gain_smoother, output_gain));
    law_silence_is_zero(pre, post, events, controls, output_gain, left, right, i);
}

proof fn lemma_silent_sum<N: Scalar>(synth: SineOne<N>, samples: Seq<N>, n: nat)
    requires
        synth.is_silent(),
        n <= MAX_VOICES,
    ensures
        active_sum(synth.voices@, samples, n) == lit::<N>(ZERO),
    decreases n,
{
    if n > 0 {
        assert(synth.voices@[n - 1].env.state == EnvState::Idle);
        lemma_silent_sum(synth, samples, (n - 1) as nat);
    }
}

/// A key that goes down sounds: one voice within the number of voices holds its
/// note in the attack, newer than every other voice; all other voices stay as
/// they are.
pub proof fn law_note_on_takes_one_voice<N: Scalar>(
    pre: SineOne<N>,
    post: SineOne<N>,
    timing: u32,
    note: u8,
    velocity: N,
    base_freq: N,
    voice_count: usize,
) -> (idx: int)
    requires
        pre.handled(post, NoteEvent::NoteOn { timing, note, velocity, base_freq }, voice_count),
        1 <= voice_count <= MAX_VOICES,
        pre.ages_are_distinct(),
    ensures
        0 <= idx < voice_count,
        is_allocated(pre.voices@.take(voice_count as int), idx),
        post.voices@[idx].note == Some(note),
        post.voices@[idx].base_freq == base_freq,
        post.voices@[idx].env.state == EnvState::Attack,
        forall|i: int|
            0 <= i < MAX_VOICES && i != idx ==> #[trigger] post.voices@[i] == pre.voices@[i]
                && post.voices@[i].age < post.voices@[idx].age,
        voice_count == 1 ==> idx == 0,
{
    let scope = pre.voices@.take(voice_count as int);
    let (idx, start) = choose|idx: int, start: N|
        {
            &&& #[trigger] is_allocated(scope, idx)
            &&& #[trigger] evaluates(pre.start_phase_in_cycles(), start)
            &&& (SineOne { next_voice_age: post.next_voice_age, ..pre }).changed_at(post, idx)
            &&& pre.voices@[idx].begun(
                post.voices@[idx],
                pre.note_params(note, velocity, base_freq, start),
            )
        };
    idx
}

/// With one voice only the last note is held: a key that goes down takes the
/// first voice, and no other voice holds a note.
pub proof fn law_mono_holds_the_last_note<N: Scalar>(
    pre: SineOne<N>,
    post: SineOne<N>,
    timing: u32,
    note: u8,
    velocity: N,
    base_freq: N,
)
    requires
        pre.handled(post, NoteEvent::NoteOn { timing, note, velocity, base_freq }, 1),
        pre.previous_voice_count == 1,
        pre.is_orderly(),
    ensures
        post.voices@[0].note == Some(note),
        forall|i: int| 1 <= i < MAX_VOICES ==> (#[trigger] post.voices@[i]).note is None,
{
    let idx = law_note_on_takes_one_voice(pre, post, timing, note, velocity, base_freq, 1);
    assert forall|i: int| 1 <= i < MAX_VOICES implies (#[trigger] post.voices@[i]).note is None by {
        assert(post.voices@[i] == pre.voices@[i]);
        assert(pre.voices@[i].holds_note_in_attack());
    }
}

/// A key that goes up for a note that no voice holds changes nothing; else it
/// ends the oldest voice that holds the note, that voice lets go of it, and all
/// other voices stay as they are.
pub proof fn law_note_off_ends_oldest<N: Scalar>(
    pre: SineOne<N>,
    post: SineOne<N>,
    timing: u32,
    note: u8,
    voice_count: usize,
)
    requires
        pre.handled(post, NoteEvent::NoteOff { timing, note }, voice_count),
    ensures
        post.next_voice_age == pre.next_voice_age,
        (forall|i: int| 0 <= i < MAX_VOICES ==> (#[trigger] pre.voices@[i]).note != Some(note))
            ==> post == pre,
        forall|i: int|
            0 <= i < MAX_VOICES && (#[trigger] pre.voices@[i]).note != Some(note)
                ==> post.voices@[i] == pre.voices@[i],
        forall|i: int|
            #![trigger pre.voices@[i]]
            #![trigger post.voices@[i]]
            is_oldest(pre.voices@, VoiceFilter::Playing(note), i) ==> post.voices@[i].note is None
                && post.voices@[i].env.state != EnvState::Attack,
        forall|i: int|
            0 <= i < MAX_VOICES && !is_oldest(pre.voices@, VoiceFilter::Playing(note), i)
                ==> #[trigger] post.voices@[i] == pre.voices@[i],
{
    if any_accepted(pre.voices@, VoiceFilter::Playing(note)) {
        let idx = choose|idx: int|
            {
                &&& #[trigger] is_oldest(pre.voices@, VoiceFilter::Playing(note), idx)
                &&& pre.changed_at(post, idx)
                &&& pre.voices@[idx].ended(
                    post.voices@[idx],
                    pre.params.release.value,
                    pre.sample_rate,
                )
            };
        assert forall|i: int| #[trigger]
            is_oldest(pre.voices@, VoiceFilter::Playing(note), i) implies i == idx by {
            assert(VoiceFilter::Playing(note).accepts(pre.voices@[i]));
            assert(VoiceFilter::Playing(note).accepts(pre.voices@[idx]));
        }
        assert(VoiceFilter::Playing(note).accepts(pre.voices@[idx]));
    } else {
        assert forall|i: int| 0 <= i < MAX_VOICES implies (#[trigger] pre.voices@[i]).note != Some(
            note,
        ) by {
            assert(!VoiceFilter::Playing(note).accepts(pre.voices@[i]));
        }
    }
}

/// A pan for a note that no voice holds is ignored where there are several
/// voices; with one voice it moves that voice, whatever the note.
pub proof fn law_pan_routing<N: Scalar>(
    pre: SineOne<N>,
    post: SineOne<N>,
    timing: u32,
    note: u8,
    pan: N,
    voice_count: usize,
)
    requires
        pre.handled(post, NoteEvent::PolyPan { timing, note, pan }, voice_count),
    ensures
        voice_count == 1 ==> post.voices@[0].pan == pan,
        voice_count != 1 && (forall|i: int|
            0 <= i < MAX_VOICES ==> (#[trigger] pre.voices@[i]).note != Some(note)) ==> post == pre,
        forall|i: int|
            voice_count != 1 && 0 <= i < MAX_VOICES && (#[trigger] pre.voices@[i]).note != Some(
                note,
            ) ==> post.voices@[i] == pre.voices@[i],
        forall|i: int|
            0 <= i < MAX_VOICES ==> (#[trigger] post.voices@[i]).env == pre.voices@[i].env
                && post.voices@[i].note == pre.voices@[i].note && post.voices@[i].age
                == pre.voices@[i].age,
{
    if voice_count != 1 && !any_accepted(pre.voices@, VoiceFilter::Playing(note)) {
        assert forall|i: int| 0 <= i < MAX_VOICES implies (#[trigger] pre.voices@[i]).note != Some(
            note,
        ) by {
            assert(!VoiceFilter::Playing(note).accepts(pre.voices@[i]));
        }
    } else if voice_count != 1 {
        let idx = choose|idx: int|
            {
                &&& #[trigger] is_first_playing(pre.voices@, note, idx)
                &&& pre.changed_at(post, idx)
                &&& pre.voices@[idx].panned_to(post.voices@[idx], pan, pre.sample_rate)
            };
        assert(pre.voices@[idx].note == Some(note));
    }
}

/// Events are played at their sample and nowhere else: those behind the cursor
/// of a sample after it are due in it, and the next one, if there is one, is not.
pub proof fn law_events_are_played_when_due<N>(
    events: Seq<NoteEvent<N>>,
    from: int,
    sample_idx: int,
)
    requires
        0 <= from <= events.len(),
    ensures
        from <= due_end(events, from, sample_idx) <= events.len(),
        forall|k: int|
            from <= k < due_end(events, from, sample_idx) ==> (#[trigger] events[k]).at()
                == sample_idx,
        due_end(events, from, sample_idx) < events.len() ==> events[due_end(
            events,
            from,
            sample_idx,
        )].at() != sample_idx,
    decreases events.len() - from,
{
    if from < events.len() && events[from].at() == sample_idx {
        law_events_are_played_when_due(events, from + 1, sample_idx);
    }
}

/// A call of a voice.
pub enum VoiceCall<N> {
    SetPan { pan: N, sample_rate: N },
    NoteOn { params: NoteOnParams<N> },
    NoteOff { release_ms: N, sample_rate: N },
    Render { controls: SampleControls<N>, sample_rate: N },
}

/// The call leads from `pre` to `post`; a rendering answers with `out`, any other
/// call with nothing.
pub open spec fn answers<N: Scalar>(
    pre: Voice<N>,
    call: VoiceCall<N>,
    post: Voice<N>,
    out: Option<(N, N)>,
) -> bool {
    match call {
        VoiceCall::SetPan { pan, sample_rate } => out is None && pre.panned_to(
            post,
            pan,
            sample_rate,
        ),
        VoiceCall::NoteOn { params } => out is None && pre.begun(post, params),
        VoiceCall::NoteOff { release_ms, sample_rate } => out is None && pre.ended(
            post,
            release_ms,
            sample_rate,
        ),
        VoiceCall::Render { controls, sample_rate } => out is Some && pre.rendered(
            post,
            controls.fine_tune_cents,
            controls.fold,
            controls.lpg_depth,
            controls.lpg_cutoff_hz,
            controls.lpg_resonance,
            sample_rate,
            out->0,
        ),
    }
}

/// `trace` lists a voice before, between and after the calls, which it answers
/// with `outs`.
pub open spec fn answers_all<N: Scalar>(
    trace: Seq<Voice<N>>,
    calls: Seq<VoiceCall<N>>,
    outs: Seq<Option<(N, N)>>,
) -> bool {
    &&& outs.len() == calls.len()
    &&& trace.len() == calls.len() + 1
    &&& forall|i: int|
        0 <= i < calls.len() ==> answers(trace[i], calls[i], trace[i + 1], #[trigger] outs[i])
}

/// The call does not open the lowpass gate: if it renders, its depth is not above
/// 0.
pub open spec fn keeps_gate_bypassed<N: Scalar>(call: VoiceCall<N>) -> bool {
    match call {
        VoiceCall::Render { controls, sample_rate } => is_bypass(controls.lpg_depth),
        _ => true,
    }
}

/// Voices that agree answer a call alike, and agree after it.
pub proof fn law_agreeing_voices_answer_alike<N: Scalar>(
    voice: Voice<N>,
    other: Voice<N>,
    call: VoiceCall<N>,
    post: Voice<N>,
    out: Option<(N, N)>,
    post2: Voice<N>,
    out2: Option<(N, N)>,
)
    requires
        repeatable::<N>(),
        voice.agrees_with(other),
        answers(voice, call, post, out),
        answers(other, call, post2, out2),
    ensures
        out == out2,
        post.agrees_with(post2),
{
    match call {
        VoiceCall::SetPan { pan, sample_rate } => {
            law_agreeing_voices_pan_alike(voice, other, pan, sample_rate, post, post2);
        },
        VoiceCall::NoteOn { params } => {
            law_agreeing_voices_begin_alike(voice, other, params, post, post2);
        },
        VoiceCall::NoteOff { release_ms, sample_rate } => {
            law_agreeing_voices_end_alike(voice, other, release_ms, sample_rate, post, post2);
        },
        VoiceCall::Render { controls, sample_rate } => {
            law_agreeing_voices_sound_alike(
                voice,
                other,
                controls.fine_tune_cents,
                controls.fold,
                controls.lpg_depth,
                controls.lpg_cutoff_hz,
                controls.lpg_resonance,
                sample_rate,
                post,
                out->0,
                post2,
                out2->0,
            );
        },
    }
}

/// Voices that agree answer any calls alike.
pub proof fn law_agreeing_voices_answer_all_alike<N: Scalar>(
    trace: Seq<Voice<N>>,
    other: Seq<Voice<N>>,
    calls: Seq<VoiceCall<N>>,
    outs: Seq<Option<(N, N)>>,
    other_outs: Seq<Option<(N, N)>>,
)
    requires
        repeatable::<N>(),
        trace[0].agrees_with(other[0]),
        answers_all(trace, calls, outs),
        answers_all(other, calls, other_outs),
    ensures
        outs == other_outs,
        trace.last().agrees_with(other.last()),
{
    assert forall|i: int| 0 <= i < outs.len() implies outs[i] == other_outs[i] by {
        lemma_traces_agree(trace, other, calls, outs, other_outs, i + 1);
    }
    assert(outs =~= other_outs);
    lemma_traces_agree(trace, other, calls, outs, other_outs, trace.len() - 1);
}

proof fn lemma_traces_agree<N: Scalar>(
    trace: Seq<Voice<N>>,
    other: Seq<Voice<N>>,
    calls: Seq<VoiceCall<N>>,
    outs: Seq<Option<(N, N)>>,
    other_outs: Seq<Option<(N, N)>>,
    i: int,
)
    requires
        repeatable::<N>(),
        trace[0].agrees_with(other[0]),
        answers_all(trace, calls, outs),
        answers_all(other, calls, other_outs),
        0 <= i < trace.len(),
    ensures
        trace[i].agrees_with(other[i]),
        i > 0 ==> outs[i - 1] == other_outs[i - 1],
    decreases i,
{
    if i > 0 {
        let k = i - 1;
        lemma_traces_agree(trace, other, calls, outs, other_outs, k);
        assert(answers(trace[k], calls[k], trace[k + 1], outs[k]));
        assert(answers(other[k], calls[k], other[k + 1], other_outs[k]));
        law_agreeing_voices_answer_alike(
            trace[k],
            other[k],
            calls[k],
            trace[k + 1],
            outs[k],
            other[k + 1],
            other_outs[k],
        );
    }
}

/// A voice that was reset answers any calls as a fresh one.
pub proof fn law_reset_voice_answers_as_fresh<N: Scalar>(
    trace: Seq<Voice<N>>,
    fresh: Seq<Voice<N>>,
    calls: Seq<VoiceCall<N>>,
    outs: Seq<Option<(N, N)>>,
    fresh_outs: Seq<Option<(N, N)>>,
)
    requires
        repeatable::<N>(),
        trace[0].is_cleared(),
        fresh[0].is_cleared(),
        answers_all(trace, calls, outs),
        answers_all(fresh, calls, fresh_outs),
    ensures
        outs == fresh_outs,
{
    law_cleared_voices_agree(trace[0], fresh[0]);
    law_agreeing_voices_answer_all_alike(trace, fresh, calls, outs, fresh_outs);
}

/// A note from silence starts its wave anew: two silent voices at rest in the
/// same pan position answer any calls alike, whatever they played before, as long
/// as the depth of the lowpass gate is not above 0.
pub proof fn law_note_from_silence_starts_anew<N: Scalar>(
    trace: Seq<Voice<N>>,
    other: Seq<Voice<N>>,
    calls: Seq<VoiceCall<N>>,
    outs: Seq<Option<(N, N)>>,
    other_outs: Seq<Option<(N, N)>>,
)
    requires
        repeatable::<N>(),
        is_silent_at_rest(trace[0]),
        is_silent_at_rest(other[0]),
        trace[0].pan == other[0].pan,
        answers_all(trace, calls, outs),
        answers_all(other, calls, other_outs),
        forall|i: int| 0 <= i < calls.len() ==> keeps_gate_bypassed(#[trigger] calls[i]),
    ensures
        outs == other_outs,
{
    law_formula_has_one_value(lit(ZERO), trace[0].env.level, other[0].env.level);
    law_resting_pan_gains_agree(trace[0], other[0]);
    assert forall|i: int| 0 <= i < outs.len() implies outs[i] == other_outs[i] by {
        lemma_traces_agree_but_for_filter(trace, other, calls, outs, other_outs, i + 1);
    }
    assert(outs =~= other_outs);
}

/// The voice is idle, and no pan ramp is in progress; level and pan gains are as
/// every voice keeps them.
pub open spec fn is_silent_at_rest<N: Scalar>(voice: Voice<N>) -> bool {
    &&& voice.env.state == EnvState::Idle
    &&& voice.env.is_idle_at_zero()
    &&& voice.pan_gains_follow()
    &&& voice.pan_is_at_rest()
}

/// A note from silence starts its wave anew also with the lowpass gate open, if
/// the filters are in the same state.
pub proof fn law_gated_note_from_silence_starts_anew<N: Scalar>(
    trace: Seq<Voice<N>>,
    other: Seq<Voice<N>>,
    calls: Seq<VoiceCall<N>>,
    outs: Seq<Option<(N, N)>>,
    other_outs: Seq<Option<(N, N)>>,
)
    requires
        repeatable::<N>(),
        is_silent_at_rest(trace[0]),
        is_silent_at_rest(other[0]),
        trace[0].pan == other[0].pan,
        trace[0].svf == other[0].svf,
        answers_all(trace, calls, outs),
        answers_all(other, calls, other_outs),
    ensures
        outs == other_outs,
{
    law_formula_has_one_value(lit(ZERO), trace[0].env.level, other[0].env.level);
    law_resting_pan_gains_agree(trace[0], other[0]);
    law_agreeing_voices_answer_all_alike(trace, other, calls, outs, other_outs);
}

proof fn lemma_traces_agree_but_for_filter<N: Scalar>(
    trace: Seq<Voice<N>>,
    other: Seq<Voice<N>>,
    calls: Seq<VoiceCall<N>>,
    outs: Seq<Option<(N, N)>>,
    other_outs: Seq<Option<(N, N)>>,
    i: int,
)
    requires
        repeatable::<N>(),
        trace[0].agrees_but_for_filter(other[0]),
        answers_all(trace, calls, outs),
        answers_all(other, calls, other_outs),
        forall|k: int| 0 <= k < calls.len() ==> keeps_gate_bypassed(#[trigger] calls[k]),
        0 <= i < trace.len(),
    ensures
        trace[i].agrees_but_for_filter(other[i]),
        i > 0 ==> outs[i - 1] == other_outs[i - 1],
    decreases i,
{
    if i > 0 {
        let k = i - 1;
        let svf = trace[k].svf;
        lemma_traces_agree_but_for_filter(trace, other, calls, outs, other_outs, k);
        assert(answers(trace[k], calls[k], trace[k + 1], outs[k]));
        assert(answers(other[k], calls[k], other[k + 1], other_outs[k]));
        assert(keeps_gate_bypassed(calls[k]));
        lemma_answer_without_filter(trace[k], svf, calls[k], trace[k + 1], outs[k]);
        lemma_answer_without_filter(other[k], svf, calls[k], other[k + 1], other_outs[k]);
        law_agreeing_voices_answer_alike(
            trace[k],
            other[k].with_filter(svf),
            calls[k],
            trace[k + 1],
            outs[k],
            other[k + 1].with_filter(svf),
            other_outs[k],
        );
    }
}

proof fn lemma_answer_without_filter<N: Scalar>(
    pre: Voice<N>,
    svf: SvfFilter<N>,
    call: VoiceCall<N>,
    post: Voice<N>,
    out: Option<(N, N)>,
)
    requires
        answers(pre, call, post, out),
        keeps_gate_bypassed(call),
    ensures
        post.svf == pre.svf,
        answers(pre.with_filter(svf), call, post.with_filter(svf), out),
{
    match call {
        VoiceCall::Render { controls, sample_rate } => {
            law_zero_depth_hears_no_filter(
                pre,
                svf,
                controls.fine_tune_cents,
                controls.fold,
                controls.lpg_depth,
                controls.lpg_cutoff_hz,
                controls.lpg_resonance,
                sample_rate,
                post,
                out->0,
            );
        },
        VoiceCall::NoteOn { params } => {
            let initial = choose|initial: N|
                {
                    &&& #[trigger] pre.begins_at(params, initial)
                    &&& (ArEnvelope { attack_coeff: post.env.attack_coeff, ..pre.env }).triggered(
                        post.env,
                        initial,
                    )
                };
            assert(pre.with_filter(svf).begins_at(params, initial));
        },
        _ => {},
    }
}

} // verus!
