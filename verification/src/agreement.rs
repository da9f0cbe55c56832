//! When two synthesizers play the same, and that a reset one plays as a fresh
//! one.

use vstd::prelude::*;

use crate::dsp::envelope::EnvState;
use crate::dsp::smoother::{law_retargeting_is_repeatable, law_smoothing_is_repeatable};
use crate::dsp::voice::{
    any_accepted, is_allocated, is_oldest, law_agreeing_voices_begin_alike,
    law_agreeing_voices_end_alike, law_agreeing_voices_pan_alike, law_agreeing_voices_sound_alike,
    law_allocation_is_unique, law_cleared_voices_agree, law_ramp_length_is_unique, ramp_length,
    Voice, VoiceFilter, MAX_VOICES,
};
use crate::formula::{evaluates, law_formula_has_one_value, val};
use crate::plugin::{
    active_sum, compensation, held_voice_count, is_first_playing, is_processed, BlockCourse,
    NoteEvent, SampleControls, SineOne, GAIN_RAMP_SECS,
};
use crate::scalar::{repeatable, Scalar};

verus! {

/// The two voices agree, and count as the same when a voice is picked: they hold
/// the same note and are of the same age.
pub open spec fn is_twin<N: Scalar>(voice: Voice<N>, other: Voice<N>) -> bool {
    &&& voice.agrees_with(other)
    &&& voice.note == other.note
    &&& voice.age == other.age
}

impl<N: Scalar> SineOne<N> {
    /// The two synthesizers are the same in all that will be heard of them.
    pub open spec fn agrees_with(self, other: Self) -> bool {
        &&& self.params == other.params
        &&& self.sample_rate == other.sample_rate
        &&& self.next_voice_age == other.next_voice_age
        &&& self.gain_smoother.agrees_with(other.gain_smoother)
        &&& self.previous_voice_count == other.previous_voice_count
        &&& self.voices_agree(other)
    }

    /// Each voice has its twin.
    pub open spec fn voices_agree(self, other: Self) -> bool {
        forall|i: int|
            #![trigger self.voices@[i]]
            #![trigger other.voices@[i]]
            0 <= i < MAX_VOICES ==> is_twin(self.voices@[i], other.voices@[i])
    }
}

/// The oldest voice is found by what twins have in common.
proof fn lemma_oldest_among_twins<N: Scalar>(
    voices: Seq<Voice<N>>,
    others: Seq<Voice<N>>,
    filter: VoiceFilter,
    idx: int,
)
    requires
        voices.len() == others.len(),
        forall|i: int|
            #![trigger voices[i]]
            #![trigger others[i]]
            0 <= i < voices.len() ==> is_twin(voices[i], others[i]),
    ensures
        is_oldest(voices, filter, idx) <==> is_oldest(others, filter, idx),
        any_accepted(voices, filter) <==> any_accepted(others, filter),
{
    assert forall|i: int| 0 <= i < voices.len() implies filter.accepts(#[trigger] voices[i])
        == filter.accepts(others[i]) by {}
    if any_accepted(voices, filter) {
        let i = choose|i: int| 0 <= i < voices.len() && filter.accepts(#[trigger] voices[i]);
        assert(filter.accepts(others[i]));
    }
    if any_accepted(others, filter) {
        let i = choose|i: int| 0 <= i < others.len() && filter.accepts(#[trigger] others[i]);
        assert(filter.accepts(voices[i]));
    }
}

/// So is the voice for a new note.
proof fn lemma_allocated_among_twins<N: Scalar>(
    voices: Seq<Voice<N>>,
    others: Seq<Voice<N>>,
    idx: int,
)
    requires
        voices.len() == others.len(),
        forall|i: int|
            #![trigger voices[i]]
            #![trigger others[i]]
            0 <= i < voices.len() ==> is_twin(voices[i], others[i]),
        is_allocated(voices, idx),
    ensures
        is_allocated(others, idx),
{
    lemma_oldest_among_twins(voices, others, VoiceFilter::Releasing, idx);
    lemma_oldest_among_twins(voices, others, VoiceFilter::Any, idx);
    assert forall|i: int| 0 <= i < voices.len() implies (#[trigger] voices[i]).env.state
        == others[i].env.state by {}
}

/// Synthesizers that agree play an event alike, and agree after it.
pub proof fn law_agreeing_synths_handle_alike<N: Scalar>(
    synth: SineOne<N>,
    other: SineOne<N>,
    event: NoteEvent<N>,
    voice_count: usize,
    post: SineOne<N>,
    post2: SineOne<N>,
)
    requires
        repeatable::<N>(),
        synth.agrees_with(other),
        1 <= voice_count <= MAX_VOICES,
        synth.handled(post, event, voice_count),
        other.handled(post2, event, voice_count),
    ensures
        post.agrees_with(post2),
{
    match event {
        NoteEvent::NoteOn { timing, note, velocity, base_freq } => {
            let scope = synth.voices@.take(voice_count as int);
            let scope2 = other.voices@.take(voice_count as int);
            let (idx, start) = choose|idx: int, start: N|
                {
                    &&& #[trigger] is_allocated(scope, idx)
                    &&& #[trigger] evaluates(synth.start_phase_in_cycles(), start)
                    &&& (SineOne { next_voice_age: post.next_voice_age, ..synth }).changed_at(
                        post,
                        idx,
                    )
                    &&& synth.voices@[idx].begun(
                        post.voices@[idx],
                        synth.note_params(note, velocity, base_freq, start),
                    )
                };
            let (idx2, start2) = choose|idx: int, start: N|
                {
                    &&& #[trigger] is_allocated(scope2, idx)
                    &&& #[trigger] evaluates(other.start_phase_in_cycles(), start)
                    &&& (SineOne { next_voice_age: post2.next_voice_age, ..other }).changed_at(
                        post2,
                        idx,
                    )
                    &&& other.voices@[idx].begun(
                        post2.voices@[idx],
                        other.note_params(note, velocity, base_freq, start),
                    )
                };
            assert forall|i: int| 0 <= i < voice_count implies is_twin(
                #[trigger] scope[i],
                scope2[i],
            ) by {
                assert(is_twin(synth.voices@[i], other.voices@[i]));
            }
            lemma_allocated_among_twins(scope, scope2, idx);
            law_allocation_is_unique(scope2, idx, idx2);
            law_formula_has_one_value(synth.start_phase_in_cycles(), start, start2);
            law_agreeing_voices_begin_alike(
                synth.voices@[idx],
                other.voices@[idx],
                synth.note_params(note, velocity, base_freq, start),
                post.voices@[idx],
                post2.voices@[idx],
            );
            lemma_change_at_one_voice(synth, other, post, post2, idx);
        },
        NoteEvent::NoteOff { timing, note } => {
            let filter = VoiceFilter::Playing(note);
            lemma_oldest_among_twins(synth.voices@, other.voices@, filter, 0);
            if any_accepted(synth.voices@, filter) {
                let idx = choose|idx: int|
                    {
                        &&& #[trigger] is_oldest(synth.voices@, filter, idx)
                        &&& synth.changed_at(post, idx)
                        &&& synth.voices@[idx].ended(
                            post.voices@[idx],
                            synth.params.release.value,
                            synth.sample_rate,
                        )
                    };
                let idx2 = choose|idx: int|
                    {
                        &&& #[trigger] is_oldest(other.voices@, filter, idx)
                        &&& other.changed_at(post2, idx)
                        &&& other.voices@[idx].ended(
                            post2.voices@[idx],
                            other.params.release.value,
                            other.sample_rate,
                        )
                    };
                lemma_oldest_among_twins(synth.voices@, other.voices@, filter, idx);
                assert(idx == idx2) by {
                    assert(filter.accepts(other.voices@[idx]));
                    assert(filter.accepts(other.voices@[idx2]));
                }
                law_agreeing_voices_end_alike(
                    synth.voices@[idx],
                    other.voices@[idx],
                    synth.params.release.value,
                    synth.sample_rate,
                    post.voices@[idx],
                    post2.voices@[idx],
                );
                lemma_change_at_one_voice(synth, other, post, post2, idx);
            }
        },
        NoteEvent::PolyPan { timing, note, pan } => {
            let filter = VoiceFilter::Playing(note);
            lemma_oldest_among_twins(synth.voices@, other.voices@, filter, 0);
            if voice_count == 1 {
                law_agreeing_voices_pan_alike(
                    synth.voices@[0],
                    other.voices@[0],
                    pan,
                    synth.sample_rate,
                    post.voices@[0],
                    post2.voices@[0],
                );
                lemma_change_at_one_voice(synth, other, post, post2, 0);
            } else if any_accepted(synth.voices@, filter) {
                let idx = choose|idx: int|
                    {
                        &&& #[trigger] is_first_playing(synth.voices@, note, idx)
                        &&& synth.changed_at(post, idx)
                        &&& synth.voices@[idx].panned_to(
                            post.voices@[idx],
                            pan,
                            synth.sample_rate,
                        )
                    };
                let idx2 = choose|idx: int|
                    {
                        &&& #[trigger] is_first_playing(other.voices@, note, idx)
                        &&& other.changed_at(post2, idx)
                        &&& other.voices@[idx].panned_to(
                            post2.voices@[idx],
                            pan,
                            other.sample_rate,
                        )
                    };
                assert(idx == idx2) by {
                    assert(is_twin(synth.voices@[idx], other.voices@[idx]));
                    assert(is_twin(synth.voices@[idx2], other.voices@[idx2]));
                }
                law_agreeing_voices_pan_alike(
                    synth.voices@[idx],
                    other.voices@[idx],
                    pan,
                    synth.sample_rate,
                    post.voices@[idx],
                    post2.voices@[idx],
                );
                lemma_change_at_one_voice(synth, other, post, post2, idx);
            }
        },
        NoteEvent::Other { timing } => {},
    }
}

/// Where a change leaves all voices but one alone, that one decides.
proof fn lemma_change_at_one_voice<N: Scalar>(
    synth: SineOne<N>,
    other: SineOne<N>,
    post: SineOne<N>,
    post2: SineOne<N>,
    idx: int,
)
    requires
        synth.voices_agree(other),
        forall|i: int|
            0 <= i < MAX_VOICES && i != idx ==> #[trigger] post.voices@[i] == synth.voices@[i],
        forall|i: int|
            0 <= i < MAX_VOICES && i != idx ==> #[trigger] post2.voices@[i] == other.voices@[i],
        is_twin(post.voices@[idx], post2.voices@[idx]),
    ensures
        post.voices_agree(post2),
{
    assert forall|i: int|
        #![trigger post.voices@[i]]
        #![trigger post2.voices@[i]]
        0 <= i < MAX_VOICES implies is_twin(post.voices@[i], post2.voices@[i]) by {
        if i != idx {
            assert(post.voices@[i] == synth.voices@[i]);
            assert(post2.voices@[i] == other.voices@[i]);
        }
    }
}

/// Synthesizers that agree play events alike, and agree after them.
pub proof fn law_agreeing_synths_handle_all_alike<N: Scalar>(
    synth: SineOne<N>,
    other: SineOne<N>,
    events: Seq<NoteEvent<N>>,
    voice_count: usize,
    post: SineOne<N>,
    post2: SineOne<N>,
)
    requires
        repeatable::<N>(),
        synth.agrees_with(other),
        1 <= voice_count <= MAX_VOICES,
        synth.handled_all(post, events, voice_count),
        other.handled_all(post2, events, voice_count),
    ensures
        post.agrees_with(post2),
    decreases events.len(),
{
    if events.len() > 0 {
        let rest = events.drop_last();
        let mid = choose|mid: SineOne<N>|
            {
                &&& synth.handled_all(mid, rest, voice_count)
                &&& #[trigger] mid.handled(post, events.last(), voice_count)
            };
        let mid2 = choose|mid: SineOne<N>|
            {
                &&& other.handled_all(mid, rest, voice_count)
                &&& #[trigger] mid.handled(post2, events.last(), voice_count)
            };
        law_agreeing_synths_handle_all_alike(synth, other, rest, voice_count, mid, mid2);
        law_agreeing_synths_handle_alike(mid, mid2, events.last(), voice_count, post, post2);
    }
}

/// The sum depends on the samples of the voices that are not idle, and on no
/// others.
proof fn lemma_sum_of_active<N: Scalar>(
    voices: Seq<Voice<N>>,
    others: Seq<Voice<N>>,
    samples: Seq<N>,
    other_samples: Seq<N>,
    n: nat,
)
    requires
        forall|i: int|
            #![trigger voices[i]]
            0 <= i < n ==> voices[i].env.state == others[i].env.state && (voices[i].env.state
                != EnvState::Idle ==> samples[i] == other_samples[i]),
    ensures
        active_sum(voices, samples, n) == active_sum(others, other_samples, n),
    decreases n,
{
    if n > 0 {
        assert(voices[n - 1].env.state == others[n - 1].env.state);
        lemma_sum_of_active(voices, others, samples, other_samples, (n - 1) as nat);
    }
}

/// Synthesizers that agree render the same sample, and agree after it.
pub proof fn law_agreeing_synths_render_alike<N: Scalar>(
    synth: SineOne<N>,
    other: SineOne<N>,
    controls: SampleControls<N>,
    output_gain: N,
    post: SineOne<N>,
    out: (N, N),
    post2: SineOne<N>,
    out2: (N, N),
)
    requires
        repeatable::<N>(),
        synth.agrees_with(other),
        synth.rendered(post, controls, output_gain, out),
        other.rendered(post2, controls, output_gain, out2),
    ensures
        out == out2,
        post.agrees_with(post2),
{
    let (gain, lefts, rights) = choose|gain: N, lefts: Seq<N>, rights: Seq<N>| #[trigger]
        synth.mixed(post, controls, output_gain, gain, lefts, rights, out);
    let (gain2, lefts2, rights2) = choose|gain: N, lefts: Seq<N>, rights: Seq<N>| #[trigger]
        other.mixed(post2, controls, output_gain, gain, lefts, rights, out2);
    law_smoothing_is_repeatable(
        synth.gain_smoother,
        other.gain_smoother,
        post.gain_smoother,
        gain,
        post2.gain_smoother,
        gain2,
    );
    assert forall|i: int| 0 <= i < MAX_VOICES implies is_twin(
        #[trigger] post.voices@[i],
        post2.voices@[i],
    ) && (synth.voices@[i].env.state != EnvState::Idle ==> lefts[i] == lefts2[i] && rights[i]
        == rights2[i]) by {
        let voice = synth.voices@[i];
        let twin = other.voices@[i];
        assert(is_twin(voice, twin));
        assert(post2.voices@[i] == post2.voices@[i]);
        if voice.env.state != EnvState::Idle {
            law_agreeing_voices_sound_alike(
                voice,
                twin,
                controls.fine_tune_cents,
                controls.fold,
                controls.lpg_depth,
                controls.lpg_cutoff_hz,
                controls.lpg_resonance,
                synth.sample_rate,
                post.voices@[i],
                (lefts[i], rights[i]),
                post2.voices@[i],
                (lefts2[i], rights2[i]),
            );
        }
    }
    assert forall|i: int| 0 <= i < MAX_VOICES implies (#[trigger] synth.voices@[i]).env.state
        == other.voices@[i].env.state && (synth.voices@[i].env.state != EnvState::Idle ==> lefts[i]
        == lefts2[i] && rights[i] == rights2[i]) by {
        assert(is_twin(post.voices@[i], post2.voices@[i]));
    }
    let n = MAX_VOICES as nat;
    lemma_sum_of_active(synth.voices@, other.voices@, lefts, lefts2, n);
    lemma_sum_of_active(synth.voices@, other.voices@, rights, rights2, n);
    let combined = val(gain).times(val(output_gain));
    law_formula_has_one_value(
        active_sum(synth.voices@, lefts, n).times(combined),
        out.0,
        out2.0,
    );
    law_formula_has_one_value(
        active_sum(synth.voices@, rights, n).times(combined),
        out.1,
        out2.1,
    );
}

/// Synthesizers that agree resize alike, and agree after it.
pub proof fn law_agreeing_synths_resize_alike<N: Scalar>(
    synth: SineOne<N>,
    other: SineOne<N>,
    voice_count: usize,
    post: SineOne<N>,
    post2: SineOne<N>,
)
    requires
        repeatable::<N>(),
        synth.agrees_with(other),
        synth.resized(post, voice_count),
        other.resized(post2, voice_count),
    ensures
        post.agrees_with(post2),
{
    if voice_count != synth.previous_voice_count {
        let (gain, n) = choose|gain: N, n: u32|
            {
                &&& #[trigger] ramp_length(GAIN_RAMP_SECS, synth.sample_rate, n)
                &&& #[trigger] evaluates(compensation(voice_count), gain)
                &&& synth.gain_smoother.retargeted(post.gain_smoother, gain, n)
            };
        let (gain2, n2) = choose|gain: N, n: u32|
            {
                &&& #[trigger] ramp_length(GAIN_RAMP_SECS, other.sample_rate, n)
                &&& #[trigger] evaluates(compensation(voice_count), gain)
                &&& other.gain_smoother.retargeted(post2.gain_smoother, gain, n)
            };
        law_formula_has_one_value(compensation(voice_count), gain, gain2);
        law_ramp_length_is_unique(GAIN_RAMP_SECS, synth.sample_rate, n, n2);
        law_retargeting_is_repeatable(
            synth.gain_smoother,
            other.gain_smoother,
            gain,
            n,
            post.gain_smoother,
            post2.gain_smoother,
        );
        assert forall|i: int|
            #![trigger post.voices@[i]]
            #![trigger post2.voices@[i]]
            0 <= i < MAX_VOICES implies is_twin(post.voices@[i], post2.voices@[i]) by {
            assert(is_twin(synth.voices@[i], other.voices@[i]));
            assert(post.voices@[i] == post.voices@[i]);
            assert(post2.voices@[i] == post2.voices@[i]);
            if voice_count <= i < synth.previous_voice_count && synth.voices@[i].env.state
                != EnvState::Idle {
                law_agreeing_voices_end_alike(
                    synth.voices@[i],
                    other.voices@[i],
                    synth.params.release.value,
                    synth.sample_rate,
                    post.voices@[i],
                    post2.voices@[i],
                );
            }
        }
    }
}

proof fn lemma_courses_agree<N: Scalar>(
    course: BlockCourse<N>,
    other: BlockCourse<N>,
    start: SineOne<N>,
    start2: SineOne<N>,
    voice_count: usize,
    events: Seq<NoteEvent<N>>,
    controls: Seq<SampleControls<N>>,
    output_gain: N,
    left: Seq<N>,
    right: Seq<N>,
    left2: Seq<N>,
    right2: Seq<N>,
    n: int,
    i: int,
)
    requires
        repeatable::<N>(),
        start.agrees_with(start2),
        1 <= voice_count <= MAX_VOICES,
        course.is_course(start, voice_count, events, controls, output_gain, left, right, n),
        other.is_course(start2, voice_count, events, controls, output_gain, left2, right2, n),
        0 <= i <= n,
    ensures
        course.states[i].agrees_with(other.states[i]),
        course.cursors[i] == other.cursors[i],
        i > 0 ==> left[i - 1] == left2[i - 1] && right[i - 1] == right2[i - 1],
    decreases i,
{
    if i > 0 {
        let k = i - 1;
        lemma_courses_agree(
            course,
            other,
            start,
            start2,
            voice_count,
            events,
            controls,
            output_gain,
            left,
            right,
            left2,
            right2,
            n,
            k,
        );
        assert(course.takes_sample(voice_count, events, controls, output_gain, left, right, k));
        assert(other.takes_sample(voice_count, events, controls, output_gain, left2, right2, k));
        law_agreeing_synths_handle_all_alike(
            course.states[k],
            other.states[k],
            events.subrange(course.cursors[k], course.cursors[k + 1]),
            voice_count,
            course.played[k],
            other.played[k],
        );
        law_agreeing_synths_render_alike(
            course.played[k],
            other.played[k],
            controls[k],
            output_gain,
            course.states[k + 1],
            (left[k], right[k]),
            other.states[k + 1],
            (left2[k], right2[k]),
        );
    }
}

/// Synthesizers that agree play the same: a block with the same events and
/// controls gives the same samples on both channels, and they agree after it.
pub proof fn law_agreeing_synths_play_alike<N: Scalar>(
    synth: SineOne<N>,
    other: SineOne<N>,
    events: Seq<NoteEvent<N>>,
    controls: Seq<SampleControls<N>>,
    output_gain: N,
    post: SineOne<N>,
    left: Seq<N>,
    right: Seq<N>,
    post2: SineOne<N>,
    left2: Seq<N>,
    right2: Seq<N>,
)
    requires
        repeatable::<N>(),
        synth.agrees_with(other),
        is_processed(synth, post, events, controls, output_gain, left, right),
        is_processed(other, post2, events, controls, output_gain, left2, right2),
        left.len() == controls.len(),
        right.len() == controls.len(),
        left2.len() == controls.len(),
        right2.len() == controls.len(),
    ensures
        left == left2,
        right == right2,
        post.agrees_with(post2),
{
    let voice_count = held_voice_count(synth.params.voices.value);
    let n = controls.len() as int;
    let (start, course) = choose|start: SineOne<N>, course: BlockCourse<N>|
        {
            &&& #[trigger] synth.resized(start, voice_count)
            &&& #[trigger] course.is_course(
                start,
                voice_count,
                events,
                controls,
                output_gain,
                left,
                right,
                n,
            )
            &&& post == course.states.last()
        };
    let (start2, course2) = choose|start: SineOne<N>, course: BlockCourse<N>|
        {
            &&& #[trigger] other.resized(start, voice_count)
            &&& #[trigger] course.is_course(
                start,
                voice_count,
                events,
                controls,
                output_gain,
                left2,
                right2,
                n,
            )
            &&& post2 == course.states.last()
        };
    law_agreeing_synths_resize_alike(synth, other, voice_count, start, start2);
    assert forall|i: int| 0 <= i < n implies left[i] == left2[i] && right[i] == right2[i] by {
        lemma_courses_agree(
            course,
            course2,
            start,
            start2,
            voice_count,
            events,
            controls,
            output_gain,
            left,
            right,
            left2,
            right2,
            n,
            i + 1,
        );
    }
    lemma_courses_agree(
        course,
        course2,
        start,
        start2,
        voice_count,
        events,
        controls,
        output_gain,
        left,
        right,
        left2,
        right2,
        n,
        n,
    );
    assert(left =~= left2);
    assert(right =~= right2);
}

/// Synthesizers that were reset, with the same parameters and sample rate, agree.
pub proof fn law_cleared_synths_agree<N: Scalar>(synth: SineOne<N>, fresh: SineOne<N>)
    requires
        repeatable::<N>(),
        synth.params == fresh.params,
        synth.sample_rate == fresh.sample_rate,
        synth.is_reset(),
        fresh.is_reset(),
    ensures
        synth.agrees_with(fresh),
{
    assert forall|i: int|
        #![trigger synth.voices@[i]]
        #![trigger fresh.voices@[i]]
        0 <= i < MAX_VOICES implies is_twin(synth.voices@[i], fresh.voices@[i]) by {
        assert(synth.voices@[i].is_cleared());
        assert(fresh.voices@[i].is_cleared());
        law_cleared_voices_agree(synth.voices@[i], fresh.voices@[i]);
    }
    law_formula_has_one_value(
        compensation(synth.previous_voice_count),
        synth.gain_smoother.current,
        fresh.gain_smoother.current,
    );
}

/// After a reset the gain compensation is in force from the first sample on.
pub proof fn law_reset_gain_is_in_force<N: Scalar>(
    synth: SineOne<N>,
    post: SineOne<N>,
    controls: SampleControls<N>,
    output_gain: N,
    gain: N,
    lefts: Seq<N>,
    rights: Seq<N>,
    out: (N, N),
)
    requires
        synth.gain_is_synced(),
        synth.mixed(post, controls, output_gain, gain, lefts, rights, out),
    ensures
        evaluates(compensation(synth.previous_voice_count), gain),
        post.gain_is_synced(),
{
    assert(post.gain_smoother.rests_at(gain));
}

} // verus!
