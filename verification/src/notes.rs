//! What notes owe to the parameters: which of them a note reads, when it reads
//! them, and what it takes from them.

use vstd::prelude::*;

use crate::dsp::envelope::{decay_coefficient, ArEnvelope, EnvState, IDLE_THRESHOLD};
use crate::dsp::timing::{
    decay_follows, is_good_for_release, is_time, law_release_takes_its_time,
};
use crate::dsp::voice::{
    any_accepted, is_allocated, is_oldest, law_allocation_is_unique, ramp_length, VoiceFilter,
    MAX_VOICES,
};
use crate::formula::{evaluates, lit, val};
use crate::params::{SineOneParams, FULL_CIRCLE};
use crate::plugin::{
    compensation, held_voice_count, is_first_playing, is_processed, BlockCourse,
    NoteEvent, SampleControls, SineOne, GAIN_RAMP_SECS,
};
use crate::reading::{power_of, Growth, Reading};
use crate::scalar::{Scalar, ONE};

verus! {

impl<N: Scalar> SineOne<N> {
    /// The synthesizer with other parameters.
    pub open spec fn with_params(self, params: SineOneParams<N>) -> Self {
        SineOne { params, ..self }
    }
}

/// What a key that goes up does depends on no parameter but Release: with other
/// parameters and the same Release it does the same.
pub proof fn law_key_up_reads_release_alone<N: Scalar>(
    pre: SineOne<N>,
    post: SineOne<N>,
    timing: u32,
    note: u8,
    voice_count: usize,
    params: SineOneParams<N>,
)
    requires
        pre.handled(post, NoteEvent::NoteOff { timing, note }, voice_count),
        params.release.value == pre.params.release.value,
    ensures
        pre.with_params(params).handled(
            post.with_params(params),
            NoteEvent::NoteOff { timing, note },
            voice_count,
        ),
{
    let (pre2, post2) = (pre.with_params(params), post.with_params(params));
    if any_accepted(pre.voices@, VoiceFilter::Playing(note)) {
        let idx = choose|idx: int|
            {
                &&& #[trigger] is_oldest(pre.voices@, VoiceFilter::Playing(note), idx)
                &&& pre.changed_at(post, idx)
                &&& pre.voices@[idx].ended(
                    post.voices@[idx],
                    pre.params.release.value,
                    pre.sample_rate,
                )
            };
        assert(is_oldest(pre2.voices@, VoiceFilter::Playing(note), idx));
        assert(pre2.changed_at(post2, idx));
    }
}

/// A key that goes up ends the note that was held longest: of the voices that hold
/// its note only one changes, none of the others is older, and it lets go of the
/// note.
pub proof fn law_key_up_ends_longest_held<N: Scalar>(
    pre: SineOne<N>,
    post: SineOne<N>,
    timing: u32,
    note: u8,
    voice_count: usize,
    holder: int,
) -> (ended: int)
    requires
        pre.handled(post, NoteEvent::NoteOff { timing, note }, voice_count),
        0 <= holder < MAX_VOICES,
        pre.voices@[holder].note == Some(note),
    ensures
        0 <= ended < MAX_VOICES,
        pre.voices@[ended].note == Some(note),
        post.voices@[ended].note is None,
        post.voices@[ended].env.state != EnvState::Attack,
        forall|i: int|
            0 <= i < MAX_VOICES && (#[trigger] pre.voices@[i]).note == Some(note)
                ==> pre.voices@[ended].age <= pre.voices@[i].age,
        forall|i: int|
            0 <= i < MAX_VOICES && i != ended ==> #[trigger] post.voices@[i] == pre.voices@[i],
{
    assert(VoiceFilter::Playing(note).accepts(pre.voices@[holder]));
    assert(any_accepted(pre.voices@, VoiceFilter::Playing(note)));
    let idx = choose|idx: int|
        {
            &&& #[trigger] is_oldest(pre.voices@, VoiceFilter::Playing(note), idx)
            &&& pre.changed_at(post, idx)
            &&& pre.voices@[idx].ended(
                post.voices@[idx],
                pre.params.release.value,
                pre.sample_rate,
            )
        };
    assert(VoiceFilter::Playing(note).accepts(pre.voices@[idx]));
    assert forall|i: int|
        0 <= i < MAX_VOICES && (#[trigger] pre.voices@[i]).note == Some(
            note,
        ) implies pre.voices@[idx].age <= pre.voices@[i].age by {
        assert(VoiceFilter::Playing(note).accepts(pre.voices@[i]));
    }
    idx
}

/// The level never answers that it is at most the threshold of silence.
pub open spec fn is_audible<N: Scalar>(env: ArEnvelope<N>) -> bool {
    forall|threshold: N|
        evaluates(lit(IDLE_THRESHOLD), threshold) ==> !#[trigger] call_ensures(
            N::is_at_most,
            (env.level, threshold),
            true,
        )
}

/// A key that goes up fades its note out by the Release parameter: the voice that
/// held the note falls by the factor of that time per sample from then on, from the
/// level where it stands, unless it is silent at once. It keeps its wave, its
/// velocity and its pan.
pub proof fn law_key_up_fades_by_release<N: Scalar>(
    pre: SineOne<N>,
    post: SineOne<N>,
    timing: u32,
    note: u8,
    voice_count: usize,
    idx: int,
)
    requires
        pre.handled(post, NoteEvent::NoteOff { timing, note }, voice_count),
        is_oldest(pre.voices@, VoiceFilter::Playing(note), idx),
    ensures
        evaluates(
            decay_coefficient(pre.params.release.value, pre.sample_rate),
            post.voices@[idx].env.release_coeff,
        ),
        post.voices@[idx].env.state == EnvState::Release ==> post.voices@[idx].env.level
            == pre.voices@[idx].env.level,
        pre.voices@[idx].env.state != EnvState::Idle && is_audible(pre.voices@[idx].env)
            ==> post.voices@[idx].env.state == EnvState::Release,
        post.voices@[idx].osc == pre.voices@[idx].osc,
        post.voices@[idx].svf == pre.voices@[idx].svf,
        post.voices@[idx].base_freq == pre.voices@[idx].base_freq,
        post.voices@[idx].velocity_smoother == pre.voices@[idx].velocity_smoother,
        post.voices@[idx].pan_left_smoother == pre.voices@[idx].pan_left_smoother,
        post.voices@[idx].pan_right_smoother == pre.voices@[idx].pan_right_smoother,
{
    let found = choose|idx: int|
        {
            &&& #[trigger] is_oldest(pre.voices@, VoiceFilter::Playing(note), idx)
            &&& pre.changed_at(post, idx)
            &&& pre.voices@[idx].ended(
                post.voices@[idx],
                pre.params.release.value,
                pre.sample_rate,
            )
        };
    assert(VoiceFilter::Playing(note).accepts(pre.voices@[idx]));
    assert(VoiceFilter::Playing(note).accepts(pre.voices@[found]));
    assert(found == idx);
}

/// After a key goes up its note fades out over the Release time: the voice is silent
/// after `k` samples where the exact curve of that time, with the rounding on top,
/// is below the threshold, and still fading where the exact curve, less the
/// rounding, is above it.
pub proof fn law_key_up_fades_over_release_time<N: Scalar>(
    reading: Reading<N>,
    wide: Reading<N>,
    growth: Growth,
    share: real,
    floor: real,
    tolerance: real,
    threshold: real,
    time_constants: real,
    samples: real,
    pre: SineOne<N>,
    post: SineOne<N>,
    timing: u32,
    note: u8,
    voice_count: usize,
    idx: int,
    trace: Seq<ArEnvelope<N>>,
    outs: Seq<N>,
    k: nat,
)
    requires
        pre.handled(post, NoteEvent::NoteOff { timing, note }, voice_count),
        is_oldest(pre.voices@, VoiceFilter::Playing(note), idx),
        post.voices@[idx].env.state == EnvState::Release,
        ArEnvelope::runs(trace, outs),
        trace[0] == post.voices@[idx].env,
        0 < k < trace.len(),
        reading.value == wide.value,
        is_time(
            wide,
            share,
            floor,
            time_constants,
            pre.params.release.value,
            pre.sample_rate,
            samples,
        ),
        decay_follows(wide, growth, tolerance),
        wide.bound >= 80real,
        is_good_for_release(reading, share, floor, threshold, trace[0]),
    ensures
        reading.of(pre.voices@[idx].env.level) * power_of(
            (1real + tolerance) * growth.at(
                0real - (1real - 6real * share) * (time_constants / samples),
            ) * (1real + share),
            k,
        ) < threshold ==> trace[k as int].state == EnvState::Idle,
        reading.of(pre.voices@[idx].env.level) * power_of(
            (1real - tolerance) * growth.at(
                0real - (1real + 6real * share) * (time_constants / samples),
            ) * (1real - share),
            k,
        ) > threshold ==> trace[k as int].state == EnvState::Release,
{
    law_key_up_fades_by_release(pre, post, timing, note, voice_count, idx);
    law_release_takes_its_time(
        reading,
        wide,
        growth,
        share,
        floor,
        tolerance,
        threshold,
        time_constants,
        pre.params.release.value,
        pre.sample_rate,
        samples,
        trace,
        outs,
        k,
    );
}

/// What a key that goes down does depends on no parameters but Attack and Start
/// Phase.
pub proof fn law_key_down_reads_attack_and_phase<N: Scalar>(
    pre: SineOne<N>,
    post: SineOne<N>,
    timing: u32,
    note: u8,
    velocity: N,
    base_freq: N,
    voice_count: usize,
    params: SineOneParams<N>,
)
    requires
        pre.handled(post, NoteEvent::NoteOn { timing, note, velocity, base_freq }, voice_count),
        params.attack.value == pre.params.attack.value,
        params.start_phase.value == pre.params.start_phase.value,
    ensures
        pre.with_params(params).handled(
            post.with_params(params),
            NoteEvent::NoteOn { timing, note, velocity, base_freq },
            voice_count,
        ),
{
    let (pre2, post2) = (pre.with_params(params), post.with_params(params));
    let scope = pre.voices@.take(voice_count as int);
    let (idx, start) = choose|idx: int, start: N|
        {
            &&& #[trigger] is_allocated(scope, idx)
            &&& #[trigger] evaluates(pre.start_phase_in_cycles(), start)
            &&& (SineOne { next_voice_age: post.next_voice_age, ..pre }).changed_at(post, idx)
            &&& pre.voices@[idx].begun(
                post.voices@[idx],
                pre.note_params(note, velocity, base_freq, start),
            )
        };
    assert(is_allocated(pre2.voices@.take(voice_count as int), idx));
    assert(evaluates(pre2.start_phase_in_cycles(), start));
    assert((SineOne { next_voice_age: post2.next_voice_age, ..pre2 }).changed_at(post2, idx));
    assert(pre2.note_params(note, velocity, base_freq, start) == pre.note_params(
        note,
        velocity,
        base_freq,
        start,
    ));
}

/// A key that goes down gives its voice the attack of the Attack parameter, the
/// velocity and the frequency of the event, and from silence the start phase: its
/// degrees over 360, less the whole cycles.
pub proof fn law_key_down_begins_its_note<N: Scalar>(
    pre: SineOne<N>,
    post: SineOne<N>,
    timing: u32,
    note: u8,
    velocity: N,
    base_freq: N,
    voice_count: usize,
    idx: int,
)
    requires
        pre.handled(post, NoteEvent::NoteOn { timing, note, velocity, base_freq }, voice_count),
        is_allocated(pre.voices@.take(voice_count as int), idx),
    ensures
        evaluates(
            decay_coefficient(pre.params.attack.value, pre.sample_rate),
            post.voices@[idx].env.attack_coeff,
        ),
        post.voices@[idx].note == Some(note),
        post.voices@[idx].base_freq == base_freq,
        post.voices@[idx].velocity_smoother.target == velocity,
        post.voices@[idx].pan == pre.voices@[idx].pan,
        post.voices@[idx].pan_left_smoother == pre.voices@[idx].pan_left_smoother,
        post.voices@[idx].pan_right_smoother == pre.voices@[idx].pan_right_smoother,
        post.voices@[idx].svf == pre.voices@[idx].svf,
        post.voices@[idx].env.state == EnvState::Attack,
        pre.voices@[idx].env.state == EnvState::Idle ==> post.voices@[idx].velocity_smoother.current
            == velocity && evaluates(
            val(pre.params.start_phase.value).over(lit(FULL_CIRCLE)).remainder(lit(ONE)),
            post.voices@[idx].osc.phase,
        ),
        pre.voices@[idx].env.state != EnvState::Idle ==> post.voices@[idx].osc
            == pre.voices@[idx].osc,
{
    let scope = pre.voices@.take(voice_count as int);
    let (found, start) = choose|idx: int, start: N|
        {
            &&& #[trigger] is_allocated(scope, idx)
            &&& #[trigger] evaluates(pre.start_phase_in_cycles(), start)
            &&& (SineOne { next_voice_age: post.next_voice_age, ..pre }).changed_at(post, idx)
            &&& pre.voices@[idx].begun(
                post.voices@[idx],
                pre.note_params(note, velocity, base_freq, start),
            )
        };
    law_allocation_is_unique(scope, found, idx);
}

/// A pan depends on no parameter.
pub proof fn law_pan_reads_no_parameter<N: Scalar>(
    pre: SineOne<N>,
    post: SineOne<N>,
    timing: u32,
    note: u8,
    pan: N,
    voice_count: usize,
    params: SineOneParams<N>,
)
    requires
        pre.handled(post, NoteEvent::PolyPan { timing, note, pan }, voice_count),
    ensures
        pre.with_params(params).handled(
            post.with_params(params),
            NoteEvent::PolyPan { timing, note, pan },
            voice_count,
        ),
{
    let (pre2, post2) = (pre.with_params(params), post.with_params(params));
    if voice_count == 1 {
        assert(pre2.changed_at(post2, 0));
    } else if any_accepted(pre.voices@, VoiceFilter::Playing(note)) {
        let idx = choose|idx: int|
            {
                &&& #[trigger] is_first_playing(pre.voices@, note, idx)
                &&& pre.changed_at(post, idx)
                &&& pre.voices@[idx].panned_to(post.voices@[idx], pan, pre.sample_rate)
            };
        assert(is_first_playing(pre2.voices@, note, idx));
        assert(pre2.changed_at(post2, idx));
    }
}

/// A sample depends on no parameter: what moves within a note comes with the
/// controls.
pub proof fn law_sample_reads_no_parameter<N: Scalar>(
    pre: SineOne<N>,
    post: SineOne<N>,
    controls: SampleControls<N>,
    output_gain: N,
    out: (N, N),
    params: SineOneParams<N>,
)
    requires
        pre.rendered(post, controls, output_gain, out),
    ensures
        pre.with_params(params).rendered(post.with_params(params), controls, output_gain, out),
{
    let (gain, lefts, rights) = choose|gain: N, lefts: Seq<N>, rights: Seq<N>| #[trigger]
        pre.mixed(post, controls, output_gain, gain, lefts, rights, out);
    assert(pre.with_params(params).mixed(
        post.with_params(params),
        controls,
        output_gain,
        gain,
        lefts,
        rights,
        out,
    ));
}

/// A change of the number of voices depends on no parameter but Release, by which
/// the voices that fall out fade: all of them that sound and are audible.
pub proof fn law_resizing_reads_release_alone<N: Scalar>(
    pre: SineOne<N>,
    post: SineOne<N>,
    voice_count: usize,
    params: SineOneParams<N>,
)
    requires
        pre.resized(post, voice_count),
        params.release.value == pre.params.release.value,
    ensures
        pre.with_params(params).resized(post.with_params(params), voice_count),
        forall|i: int|
            voice_count <= i < pre.previous_voice_count && i < MAX_VOICES
                && pre.voices@[i].env.state != EnvState::Idle ==> evaluates(
                decay_coefficient(pre.params.release.value, pre.sample_rate),
                (#[trigger] post.voices@[i]).env.release_coeff,
            ),
        forall|i: int|
            voice_count <= i < pre.previous_voice_count && i < MAX_VOICES
                && pre.voices@[i].env.state != EnvState::Idle && is_audible(pre.voices@[i].env)
                ==> (#[trigger] post.voices@[i]).env.state == EnvState::Release,
{
    if voice_count != pre.previous_voice_count {
        let (gain, n) = choose|gain: N, n: u32|
            {
                &&& #[trigger] ramp_length(GAIN_RAMP_SECS, pre.sample_rate, n)
                &&& #[trigger] evaluates(compensation(voice_count), gain)
                &&& pre.gain_smoother.retargeted(post.gain_smoother, gain, n)
            };
        assert(ramp_length(GAIN_RAMP_SECS, pre.with_params(params).sample_rate, n));
    }
}

/// The parameters that a block reads have the values: the number of voices, Release
/// for what ends, and Attack and Start Phase where a key goes down.
pub open spec fn are_read_alike<N: Scalar>(
    params: SineOneParams<N>,
    other: SineOneParams<N>,
    events: Seq<NoteEvent<N>>,
) -> bool {
    &&& params.voices.value == other.voices.value
    &&& params.release.value == other.release.value
    &&& (exists|k: int| 0 <= k < events.len() && (#[trigger] events[k]) is NoteOn) ==> {
        &&& params.attack.value == other.attack.value
        &&& params.start_phase.value == other.start_phase.value
    }
}

proof fn lemma_events_with_params<N: Scalar>(
    pre: SineOne<N>,
    post: SineOne<N>,
    events: Seq<NoteEvent<N>>,
    voice_count: usize,
    params: SineOneParams<N>,
)
    requires
        pre.handled_all(post, events, voice_count),
        are_read_alike(params, pre.params, events),
    ensures
        pre.with_params(params).handled_all(post.with_params(params), events, voice_count),
        post.params == pre.params,
    decreases events.len(),
{
    if events.len() > 0 {
        let mid = choose|mid: SineOne<N>|
            {
                &&& pre.handled_all(mid, events.drop_last(), voice_count)
                &&& #[trigger] mid.handled(post, events.last(), voice_count)
            };
        assert(are_read_alike(params, pre.params, events.drop_last())) by {
            if exists|k: int|
                0 <= k < events.drop_last().len() && (#[trigger] events.drop_last()[k]) is NoteOn {
                let k = choose|k: int|
                    0 <= k < events.drop_last().len() && (#[trigger] events.drop_last()[k])
                        is NoteOn;
                assert(events[k] is NoteOn);
            }
        }
        lemma_events_with_params(pre, mid, events.drop_last(), voice_count, params);
        let event = events[events.len() - 1];
        match event {
            NoteEvent::NoteOn { timing, note, velocity, base_freq } => {
                assert(event is NoteOn);
                law_key_down_reads_attack_and_phase(
                    mid,
                    post,
                    timing,
                    note,
                    velocity,
                    base_freq,
                    voice_count,
                    params,
                );
            },
            NoteEvent::NoteOff { timing, note } => {
                law_key_up_reads_release_alone(mid, post, timing, note, voice_count, params);
            },
            NoteEvent::PolyPan { timing, note, pan } => {
                law_pan_reads_no_parameter(mid, post, timing, note, pan, voice_count, params);
            },
            NoteEvent::Other { timing } => {},
        }
        assert(mid.with_params(params).handled(
            post.with_params(params),
            events.last(),
            voice_count,
        ));
    }
}

/// A block depends on no parameters but those that it reads: without a key that
/// goes down, on the number of voices and Release alone, so that held notes fade out
/// alike whatever the Attack parameter says.
pub proof fn law_block_reads_few_parameters<N: Scalar>(
    pre: SineOne<N>,
    post: SineOne<N>,
    events: Seq<NoteEvent<N>>,
    controls: Seq<SampleControls<N>>,
    output_gain: N,
    left: Seq<N>,
    right: Seq<N>,
    params: SineOneParams<N>,
)
    requires
        is_processed(pre, post, events, controls, output_gain, left, right),
        are_read_alike(params, pre.params, events),
    ensures
        is_processed(
            pre.with_params(params),
            post.with_params(params),
            events,
            controls,
            output_gain,
            left,
            right,
        ),
{
    let count = held_voice_count(pre.params.voices.value);
    let n = controls.len() as int;
    let (start, course) = choose|start: SineOne<N>, course: BlockCourse<N>|
        {
            &&& #[trigger] pre.resized(start, count)
            &&& #[trigger] course.is_course(
                start,
                count,
                events,
                controls,
                output_gain,
                left,
                right,
                n,
            )
            &&& post == course.states.last()
        };
    law_resizing_reads_release_alone(pre, start, count, params);
    let other = BlockCourse {
        states: Seq::new((n + 1) as nat, |i: int| course.states[i].with_params(params)),
        played: Seq::new(n as nat, |i: int| course.played[i].with_params(params)),
        cursors: course.cursors,
    };
    assert forall|i: int| 0 <= i < n implies #[trigger] other.takes_sample(
        count,
        events,
        controls,
        output_gain,
        left,
        right,
        i,
    ) by {
        assert(course.takes_sample(count, events, controls, output_gain, left, right, i));
        lemma_course_keeps_params(
            course,
            start,
            count,
            events,
            controls,
            output_gain,
            left,
            right,
            n,
            params,
            i,
        );
        let due = events.subrange(course.cursors[i], course.cursors[i + 1]);
        lemma_fewer_are_read_alike(
            params,
            pre.params,
            events,
            course.cursors[i],
            course.cursors[i + 1],
        );
        lemma_events_with_params(course.states[i], course.played[i], due, count, params);
        law_sample_reads_no_parameter(
            course.played[i],
            course.states[i + 1],
            controls[i],
            output_gain,
            (left[i], right[i]),
            params,
        );
    }
    assert(other.is_course(
        start.with_params(params),
        count,
        events,
        controls,
        output_gain,
        left,
        right,
        controls.len() as int,
    ));
    assert(other.states.last() == post.with_params(params));
}

/// What holds of all events of a block holds of those that are due in a sample.
proof fn lemma_fewer_are_read_alike<N: Scalar>(
    params: SineOneParams<N>,
    other: SineOneParams<N>,
    events: Seq<NoteEvent<N>>,
    from: int,
    to: int,
)
    requires
        are_read_alike(params, other, events),
        0 <= from <= to <= events.len(),
    ensures
        are_read_alike(params, other, events.subrange(from, to)),
{
    let due = events.subrange(from, to);
    if exists|k: int| 0 <= k < due.len() && (#[trigger] due[k]) is NoteOn {
        let k = choose|k: int| 0 <= k < due.len() && (#[trigger] due[k]) is NoteOn;
        assert(events[from + k] is NoteOn);
    }
}

/// In the course of a block the parameters stay.
proof fn lemma_course_keeps_params<N: Scalar>(
    course: BlockCourse<N>,
    start: SineOne<N>,
    voice_count: usize,
    events: Seq<NoteEvent<N>>,
    controls: Seq<SampleControls<N>>,
    output_gain: N,
    left: Seq<N>,
    right: Seq<N>,
    n: int,
    params: SineOneParams<N>,
    i: int,
)
    requires
        course.is_course(start, voice_count, events, controls, output_gain, left, right, n),
        are_read_alike(params, start.params, events),
        0 <= i <= n,
    ensures
        course.states[i].params == start.params,
    decreases i,
{
    if i > 0 {
        let k = i - 1;
        lemma_course_keeps_params(
            course,
            start,
            voice_count,
            events,
            controls,
            output_gain,
            left,
            right,
            n,
            params,
            k,
        );
        assert(course.takes_sample(
            voice_count,
            events,
            controls,
            output_gain,
            left,
            right,
            k,
        ));
        lemma_fewer_are_read_alike(
            params,
            start.params,
            events,
            course.cursors[k],
            course.cursors[k + 1],
        );
        lemma_events_with_params(
            course.states[k],
            course.played[k],
            events.subrange(course.cursors[k], course.cursors[k + 1]),
            voice_count,
            params,
        );
    }
}

} // verus!
